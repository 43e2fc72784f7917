//! Laws of the token grammar stated over fixed byte sets: which bytes the
//! lexer skips between tokens (white space and comments), how a float's
//! fraction and exponent are read, and how a prefixed (hexadecimal,
//! octal, binary) literal is read and valued.

use vstd::prelude::*;

use crate::error::LexError;
use crate::lexer::{
    decimal_scan, lex_number, radix_of, radix_run_fn, signed_digits, skip_trivia, span_end,
    spec_next_token, Dialect, TokenModel,
};
use crate::number::{digit_run_end, digits_value, float_literal_syntax, int_literal, is_sign, strip_underscores};
use crate::text::{ascii_text, digit_value};

verus! {

// ---------- trivia ----------

/// Between tokens the lexer skips exactly the bytes that
/// `u8::is_ascii_whitespace` accepts (space, tab, line feed, form feed,
/// carriage return) and `;;` comments: from such a byte, skipping (and
/// so the next token) is the same as from the byte after it; from any
/// other byte that does not open a comment, nothing is skipped.
pub proof fn law_trivia_bytes(d: Dialect, s: Seq<u8>, p: int, alias: bool)
    requires
        0 <= p < s.len(),
    ensures
        (s[p] == 0x20 || s[p] == 0x09 || s[p] == 0x0A || s[p] == 0x0C || s[p] == 0x0D) ==> (
        skip_trivia(s, p) == skip_trivia(s, p + 1) && spec_next_token(d, s, p, alias)
            == spec_next_token(d, s, p + 1, alias)),
        !(s[p] == 0x20 || s[p] == 0x09 || s[p] == 0x0A || s[p] == 0x0C || s[p] == 0x0D) && !(p + 1
            < s.len() && s[p] == 0x3B && s[p + 1] == 0x3B) ==> skip_trivia(s, p) == p,
{
}

proof fn lemma_comment_to(s: Seq<u8>, i: int, j: int)
    requires
        0 <= i <= j <= s.len(),
        forall|x: int| i <= x < j ==> #[trigger] s[x] != 0x0A,
        j == s.len() || s[j] == 0x0A,
    ensures
        crate::lexer::comment_end(s, i) == if j == s.len() {
            j
        } else {
            j + 1
        },
    decreases j - i,
{
    if i < j {
        lemma_comment_to(s, i + 1, j);
    }
}

/// A comment runs from `;;` to the end of its line: skipping from it is
/// skipping from just past the next line feed `j`, or reaching the end of
/// the text where no line feed follows.
pub proof fn law_comment_to_line_end(s: Seq<u8>, p: int, j: int)
    requires
        0 <= p,
        p + 1 < s.len(),
        s[p] == 0x3B && s[p + 1] == 0x3B,
        p + 2 <= j <= s.len(),
        forall|x: int| p <= x < j ==> #[trigger] s[x] != 0x0A,
        j == s.len() || s[j] == 0x0A,
    ensures
        skip_trivia(s, p) == if j == s.len() {
            s.len() as int
        } else {
            skip_trivia(s, j + 1)
        },
{
    lemma_comment_to(s, p, j);
    if j == s.len() {
        assert(skip_trivia(s, j) == j);
    }
}

// ---------- helpers ----------

proof fn lemma_span_over(s: Seq<u8>, p: int, j: int, f: spec_fn(u8) -> bool)
    requires
        0 <= p <= j <= s.len(),
        forall|i: int| p <= i < j ==> f(#[trigger] s[i]),
        j == s.len() || !f(s[j]),
    ensures
        span_end(s, p, f) == j,
    decreases j - p,
{
    if p < j {
        lemma_span_over(s, p + 1, j, f);
    }
}

proof fn lemma_scan_digits(s: Seq<u8>, i: int, j: int, dot: bool, exp: bool)
    requires
        0 <= i <= j <= s.len(),
        forall|x: int| i <= x < j ==> 0x30 <= #[trigger] s[x] <= 0x39,
    ensures
        decimal_scan(s, i, dot, exp) == decimal_scan(s, j, dot, exp),
    decreases j - i,
{
    if i < j {
        lemma_scan_digits(s, i + 1, j, dot, exp);
    }
}

proof fn lemma_run_digits(c: Seq<u8>, i: int, j: int)
    requires
        0 <= i <= j <= c.len(),
        forall|x: int| i <= x < j ==> 0x30 <= #[trigger] c[x] <= 0x39,
        j == c.len() || !(0x30 <= c[j] <= 0x39),
    ensures
        digit_run_end(c, i) == j,
    decreases j - i,
{
    if i < j {
        lemma_run_digits(c, i + 1, j);
    }
}

proof fn lemma_no_underscores(x: Seq<u8>)
    requires
        forall|i: int| 0 <= i < x.len() ==> #[trigger] x[i] != 0x5F,
    ensures
        strip_underscores(x) == x,
    decreases x.len(),
{
    if x.len() > 0 {
        lemma_no_underscores(x.drop_last());
        reveal_with_fuel(Seq::<_>::filter, 1);
        assert(x.drop_last().push(x.last()) =~= x);
    }
}

// ---------- floats ----------

/// The bytes of a float written as digits `m`, `e` or `E`, an optional
/// sign and digits `k`.
pub open spec fn exponent_float_text(m: Seq<u8>, e: u8, sign: Seq<u8>, k: Seq<u8>) -> Seq<u8> {
    m + seq![e] + sign + k
}

pub open spec fn float_parts(m: Seq<u8>, e: u8, sign: Seq<u8>, k: Seq<u8>) -> bool {
    &&& m.len() > 0
    &&& k.len() > 0
    &&& forall|i: int| 0 <= i < m.len() ==> 0x30 <= #[trigger] m[i] <= 0x39
    &&& forall|i: int| 0 <= i < k.len() ==> 0x30 <= #[trigger] k[i] <= 0x39
    &&& (e == 0x65 || e == 0x45)
    &&& (sign == Seq::<u8>::empty() || sign == seq![0x2Bu8] || sign == seq![0x2Du8])
}

#[verifier::spinoff_prover]
proof fn lemma_float_bytes(m: Seq<u8>, e: u8, sign: Seq<u8>, k: Seq<u8>, s: Seq<u8>)
    requires
        float_parts(m, e, sign, k),
        s.len() >= exponent_float_text(m, e, sign, k).len(),
        s.subrange(0, exponent_float_text(m, e, sign, k).len() as int) == exponent_float_text(
            m,
            e,
            sign,
            k,
        ),
    ensures
        ({
            let n = m.len() as int;
            let z = sign.len() as int;
            let te = exponent_float_text(m, e, sign, k).len() as int;
            &&& te == n + 1 + z + k.len()
            &&& forall|x: int| 0 <= x < n ==> 0x30 <= #[trigger] s[x] <= 0x39
            &&& s[n] == e
            &&& z == 1 ==> (s[n + 1] == 0x2B || s[n + 1] == 0x2D)
            &&& z == 0 ==> 0x30 <= s[n + 1] <= 0x39
            &&& forall|x: int| n + 1 + z <= x < te ==> 0x30 <= #[trigger] s[x] <= 0x39
        }),
{
    let t = exponent_float_text(m, e, sign, k);
    let n = m.len() as int;
    let z = sign.len() as int;
    let te = t.len() as int;
    assert forall|x: int| 0 <= x < te implies #[trigger] s[x] == t[x] by {
        assert(s.subrange(0, te)[x] == s[x]);
    }
    assert forall|x: int| 0 <= x < n implies 0x30 <= #[trigger] s[x] <= 0x39 by {
        assert(t[x] == m[x]);
    }
    assert(t[n] == e);
    if z == 1 {
        assert(t[n + 1] == sign[0]);
    } else {
        assert(t[n + 1] == k[0]);
    }
    assert forall|x: int| n + 1 + z <= x < te implies 0x30 <= #[trigger] s[x] <= 0x39 by {
        assert(t[x] == k[x - n - 1 - z]);
    }
}

#[verifier::spinoff_prover]
proof fn lemma_float_scan(m: Seq<u8>, e: u8, sign: Seq<u8>, k: Seq<u8>, rest: Seq<u8>)
    requires
        float_parts(m, e, sign, k),
        rest.len() == 0 || !(0x30 <= rest[0] <= 0x39 || rest[0] == 0x5F),
    ensures
        decimal_scan(exponent_float_text(m, e, sign, k) + rest, 0, false, false) == (
            exponent_float_text(m, e, sign, k).len() as int,
            false,
            true,
        ),
{
    let t = exponent_float_text(m, e, sign, k);
    let s = t + rest;
    let n = m.len() as int;
    let z = sign.len() as int;
    let te = t.len() as int;
    assert(s.subrange(0, te) =~= t);
    lemma_float_bytes(m, e, sign, k, s);
    assert(te < s.len() ==> s[te] == rest[0]);
    lemma_scan_digits(s, 0, n, false, false);
    lemma_scan_digits(s, n + 1 + z, te, false, true);
    assert(decimal_scan(s, n, false, false) == decimal_scan(s, n + 1 + z, false, true));
}

#[verifier::spinoff_prover]
proof fn lemma_float_plain(m: Seq<u8>, e: u8, sign: Seq<u8>, k: Seq<u8>)
    requires
        float_parts(m, e, sign, k),
    ensures
        strip_underscores(exponent_float_text(m, e, sign, k)) == exponent_float_text(m, e, sign, k),
{
    let t = exponent_float_text(m, e, sign, k);
    let n = m.len() as int;
    let z = sign.len() as int;
    let te = t.len() as int;
    assert(t.subrange(0, te) =~= t);
    lemma_float_bytes(m, e, sign, k, t);
    assert forall|x: int| 0 <= x < te implies #[trigger] t[x] != 0x5F by {
        if x >= n + 1 + z {
            assert(0x30 <= t[x] <= 0x39);
        } else if x < n {
            assert(0x30 <= t[x] <= 0x39);
        }
    }
    lemma_no_underscores(t);
}

#[verifier::spinoff_prover]
proof fn lemma_float_syntax(m: Seq<u8>, e: u8, sign: Seq<u8>, k: Seq<u8>)
    requires
        float_parts(m, e, sign, k),
    ensures
        float_literal_syntax(exponent_float_text(m, e, sign, k)),
{
    let t = exponent_float_text(m, e, sign, k);
    let n = m.len() as int;
    let z = sign.len() as int;
    let te = t.len() as int;
    assert(t.subrange(0, te) =~= t);
    lemma_float_bytes(m, e, sign, k, t);
    assert(!is_sign(t[0]));
    lemma_run_digits(t, 0, n);
    lemma_run_digits(t, n + 1 + z, te);
    assert(t[n] != 0x2E);
    assert(is_sign(t[n + 1]) <==> z == 1);
}

/// A run of decimal digits, then `e` or `E`, an optional `+` or `-`, and
/// another run of digits is read as one float whose text is all of it,
/// ending after its last digit (where the text ends, or any byte but a
/// digit or `_` follows).
#[verifier::spinoff_prover]
pub proof fn law_float_exponent(m: Seq<u8>, e: u8, sign: Seq<u8>, k: Seq<u8>, rest: Seq<u8>)
    requires
        m.len() > 0,
        k.len() > 0,
        forall|i: int| 0 <= i < m.len() ==> 0x30 <= #[trigger] m[i] <= 0x39,
        forall|i: int| 0 <= i < k.len() ==> 0x30 <= #[trigger] k[i] <= 0x39,
        e == 0x65 || e == 0x45,
        sign == Seq::<u8>::empty() || sign == seq![0x2Bu8] || sign == seq![0x2Du8],
        rest.len() == 0 || !(0x30 <= rest[0] <= 0x39 || rest[0] == 0x5F),
    ensures
        ({
            let t = m + seq![e] + sign + k;
            lex_number(t + rest, 0) == (
                Ok::<TokenModel, LexError>(TokenModel::Float(ascii_text(t))),
                t.len() as int,
            )
        }),
{
    let t = exponent_float_text(m, e, sign, k);
    let s = t + rest;
    let te = t.len() as int;
    assert(float_parts(m, e, sign, k));
    lemma_float_facts(m, e, sign, k, rest);
    lemma_lex_decimal_float(s, te, t, false, true);
}

/// Everything the lexer's reading of such a float depends on.
#[verifier::spinoff_prover]
proof fn lemma_float_facts(m: Seq<u8>, e: u8, sign: Seq<u8>, k: Seq<u8>, rest: Seq<u8>)
    requires
        float_parts(m, e, sign, k),
        rest.len() == 0 || !(0x30 <= rest[0] <= 0x39 || rest[0] == 0x5F),
    ensures
        ({
            let t = exponent_float_text(m, e, sign, k);
            let s = t + rest;
            let te = t.len() as int;
            &&& 1 < s.len()
            &&& 0x30 <= s[0] <= 0x39
            &&& radix_of(s[1]) == 0
            &&& decimal_scan(s, 0, false, false) == (te, false, true)
            &&& 0 <= te <= s.len()
            &&& s.subrange(0, te) == t
            &&& strip_underscores(t) == t
            &&& float_literal_syntax(t)
        }),
{
    lemma_float_scan(m, e, sign, k, rest);
    lemma_float_plain(m, e, sign, k);
    lemma_float_syntax(m, e, sign, k);
    lemma_float_head(m, e, sign, k, rest);
}

proof fn lemma_float_head(m: Seq<u8>, e: u8, sign: Seq<u8>, k: Seq<u8>, rest: Seq<u8>)
    requires
        float_parts(m, e, sign, k),
    ensures
        ({
            let t = exponent_float_text(m, e, sign, k);
            let s = t + rest;
            &&& 1 < s.len()
            &&& 0x30 <= s[0] <= 0x39
            &&& radix_of(s[1]) == 0
            &&& s.subrange(0, t.len() as int) == t
        }),
{
    let t = exponent_float_text(m, e, sign, k);
    let s = t + rest;
    assert(s.subrange(0, t.len() as int) =~= t);
    assert(s[0] == m[0]);
    if m.len() > 1 {
        assert(s[1] == m[1]);
    } else {
        assert(s[1] == e);
    }
}

proof fn lemma_lex_decimal_float(s: Seq<u8>, te: int, t: Seq<u8>, dot: bool, exp: bool)
    requires
        1 < s.len(),
        0x30 <= s[0] <= 0x39,
        radix_of(s[1]) == 0,
        dot || exp,
        decimal_scan(s, 0, false, false) == (te, dot, exp),
        0 <= te <= s.len(),
        s.subrange(0, te) == t,
        strip_underscores(t) == t,
        float_literal_syntax(t),
    ensures
        lex_number(s, 0) == (Ok::<TokenModel, LexError>(TokenModel::Float(ascii_text(t))), te),
{
    assert(strip_underscores(s.subrange(0, te)) == t);
}

/// The bytes of a float written as digits `m`, `.` and digits `f`.
pub open spec fn fraction_float_text(m: Seq<u8>, f: Seq<u8>) -> Seq<u8> {
    m + seq![0x2Eu8] + f
}

pub open spec fn fraction_parts(m: Seq<u8>, f: Seq<u8>) -> bool {
    &&& m.len() > 0
    &&& f.len() > 0
    &&& forall|i: int| 0 <= i < m.len() ==> 0x30 <= #[trigger] m[i] <= 0x39
    &&& forall|i: int| 0 <= i < f.len() ==> 0x30 <= #[trigger] f[i] <= 0x39
}

#[verifier::spinoff_prover]
proof fn lemma_fraction_bytes(m: Seq<u8>, f: Seq<u8>, s: Seq<u8>)
    requires
        fraction_parts(m, f),
        s.len() >= fraction_float_text(m, f).len(),
        s.subrange(0, fraction_float_text(m, f).len() as int) == fraction_float_text(m, f),
    ensures
        ({
            let n = m.len() as int;
            let te = fraction_float_text(m, f).len() as int;
            &&& te == n + 1 + f.len()
            &&& forall|x: int| 0 <= x < n ==> 0x30 <= #[trigger] s[x] <= 0x39
            &&& s[n] == 0x2E
            &&& forall|x: int| n + 1 <= x < te ==> 0x30 <= #[trigger] s[x] <= 0x39
        }),
{
    let t = fraction_float_text(m, f);
    let n = m.len() as int;
    let te = t.len() as int;
    assert forall|x: int| 0 <= x < te implies #[trigger] s[x] == t[x] by {
        assert(s.subrange(0, te)[x] == s[x]);
    }
    assert forall|x: int| 0 <= x < n implies 0x30 <= #[trigger] s[x] <= 0x39 by {
        assert(t[x] == m[x]);
    }
    assert(t[n] == 0x2E);
    assert forall|x: int| n + 1 <= x < te implies 0x30 <= #[trigger] s[x] <= 0x39 by {
        assert(t[x] == f[x - n - 1]);
    }
}

#[verifier::spinoff_prover]
proof fn lemma_fraction_facts(m: Seq<u8>, f: Seq<u8>, rest: Seq<u8>)
    requires
        fraction_parts(m, f),
        rest.len() == 0 || !(0x30 <= rest[0] <= 0x39 || rest[0] == 0x5F || rest[0] == 0x65
            || rest[0] == 0x45),
    ensures
        ({
            let t = fraction_float_text(m, f);
            let s = t + rest;
            let te = t.len() as int;
            &&& 1 < s.len()
            &&& 0x30 <= s[0] <= 0x39
            &&& radix_of(s[1]) == 0
            &&& decimal_scan(s, 0, false, false) == (te, true, false)
            &&& 0 <= te <= s.len()
            &&& s.subrange(0, te) == t
        }),
{
    let t = fraction_float_text(m, f);
    let s = t + rest;
    let n = m.len() as int;
    let te = t.len() as int;
    assert(s.subrange(0, te) =~= t);
    lemma_fraction_bytes(m, f, s);
    assert(te < s.len() ==> s[te] == rest[0]);
    lemma_scan_digits(s, 0, n, false, false);
    lemma_scan_digits(s, n + 1, te, true, false);
    if n == 1 {
        assert(s[1] == 0x2E);
    } else {
        assert(0x30 <= s[1] <= 0x39);
    }
}

#[verifier::spinoff_prover]
proof fn lemma_fraction_plain(m: Seq<u8>, f: Seq<u8>)
    requires
        fraction_parts(m, f),
    ensures
        strip_underscores(fraction_float_text(m, f)) == fraction_float_text(m, f),
{
    let t = fraction_float_text(m, f);
    let n = m.len() as int;
    let te = t.len() as int;
    assert(t.subrange(0, te) =~= t);
    lemma_fraction_bytes(m, f, t);
    assert forall|x: int| 0 <= x < te implies #[trigger] t[x] != 0x5F by {
        if x != n {
            assert(0x30 <= t[x] <= 0x39);
        }
    }
    lemma_no_underscores(t);
}

#[verifier::spinoff_prover]
proof fn lemma_fraction_syntax(m: Seq<u8>, f: Seq<u8>)
    requires
        fraction_parts(m, f),
    ensures
        float_literal_syntax(fraction_float_text(m, f)),
{
    let t = fraction_float_text(m, f);
    let n = m.len() as int;
    let te = t.len() as int;
    assert(t.subrange(0, te) =~= t);
    lemma_fraction_bytes(m, f, t);
    assert(!is_sign(t[0]));
    lemma_run_digits(t, 0, n);
    lemma_run_digits(t, n + 1, te);
}

/// A run of decimal digits, `.` and another run of digits is read as one
/// float whose text is all of it, ending after its last digit (where the
/// text ends, or any byte but a digit, `_`, `e` or `E` follows).
#[verifier::spinoff_prover]
pub proof fn law_float_fraction(m: Seq<u8>, f: Seq<u8>, rest: Seq<u8>)
    requires
        m.len() > 0,
        f.len() > 0,
        forall|i: int| 0 <= i < m.len() ==> 0x30 <= #[trigger] m[i] <= 0x39,
        forall|i: int| 0 <= i < f.len() ==> 0x30 <= #[trigger] f[i] <= 0x39,
        rest.len() == 0 || !(0x30 <= rest[0] <= 0x39 || rest[0] == 0x5F || rest[0] == 0x65
            || rest[0] == 0x45),
    ensures
        ({
            let t = m + seq![0x2Eu8] + f;
            lex_number(t + rest, 0) == (
                Ok::<TokenModel, LexError>(TokenModel::Float(ascii_text(t))),
                t.len() as int,
            )
        }),
{
    let t = fraction_float_text(m, f);
    let s = t + rest;
    let te = t.len() as int;
    assert(fraction_parts(m, f));
    lemma_fraction_facts(m, f, rest);
    lemma_fraction_plain(m, f);
    lemma_fraction_syntax(m, f);
    lemma_lex_decimal_float(s, te, t, true, false);
}

// ---------- prefixed integers ----------

/// The radix a prefix letter announces: `x`/`X` 16, `o`/`O` 8, `b`/`B` 2.
pub open spec fn prefix_radix(x: u8) -> nat {
    if x == 0x78 || x == 0x58 {
        16
    } else if x == 0x6F || x == 0x4F {
        8
    } else {
        2
    }
}

/// A digit of the radix: `0`–`9`, `a`–`f`, `A`–`F` in 16; `0`–`7` in 8;
/// `0`, `1` in 2.
pub open spec fn is_digit_of(b: u8, radix: nat) -> bool {
    if radix == 16 {
        0x30 <= b <= 0x39 || 0x61 <= b <= 0x66 || 0x41 <= b <= 0x46
    } else if radix == 8 {
        0x30 <= b <= 0x37
    } else {
        b == 0x30 || b == 0x31
    }
}

/// The value of a digit, `0`–`9`, `a`–`f` or `A`–`F`.
pub open spec fn hex_digit_value(b: u8) -> nat {
    if b <= 0x39 {
        (b - 0x30) as nat
    } else if b >= 0x61 {
        (b - 0x61 + 10) as nat
    } else {
        (b - 0x41 + 10) as nat
    }
}

/// The number a run of digits writes in the radix, most significant
/// first.
pub open spec fn radix_number(d: Seq<u8>, radix: nat) -> nat
    decreases d.len(),
{
    if d.len() == 0 {
        0
    } else {
        radix_number(d.drop_last(), radix) * radix + hex_digit_value(d.last())
    }
}

proof fn lemma_radix_value(d: Seq<u8>, radix: nat)
    requires
        forall|i: int| 0 <= i < d.len() ==> is_digit_of(#[trigger] d[i], radix),
    ensures
        digits_value(d, radix) == radix_number(d, radix),
    decreases d.len(),
{
    if d.len() > 0 {
        let b = d.last();
        assert(is_digit_of(d[d.len() - 1], radix));
        lemma_radix_value(d.drop_last(), radix);
        assert(digit_value(b) == hex_digit_value(b));
    }
}

/// `0` and a prefix letter (`x`/`X`, `o`/`O`, `b`/`B`) followed by digits
/// of that radix (in either case for hexadecimal) is read up to the first
/// byte that is neither such a digit nor `_`, as the integer those digits
/// write in that radix (where it fits `i128`).
#[verifier::spinoff_prover]
pub proof fn law_prefixed_literal(x: u8, d: Seq<u8>, rest: Seq<u8>)
    requires
        x == 0x78 || x == 0x58 || x == 0x6F || x == 0x4F || x == 0x62 || x == 0x42,
        d.len() > 0,
        forall|i: int| 0 <= i < d.len() ==> is_digit_of(#[trigger] d[i], prefix_radix(x)),
        radix_number(d, prefix_radix(x)) <= i128::MAX,
        rest.len() == 0 || !(is_digit_of(rest[0], prefix_radix(x)) || rest[0] == 0x5F),
    ensures
        lex_number(seq![0x30u8, x] + d + rest, 0) == (
            Ok::<TokenModel, LexError>(TokenModel::Int(radix_number(d, prefix_radix(x)) as i128)),
            d.len() as int + 2,
        ),
{
    let s = seq![0x30u8, x] + d + rest;
    let te: int = d.len() as int + 2;
    let radix = prefix_radix(x);
    assert(s[0] == 0x30 && s[1] == x);
    assert(radix_of(x) as nat == radix);
    assert forall|i: int| 2 <= i < te implies #[trigger] s[i] == d[i - 2] by {}
    assert(te < s.len() ==> s[te] == rest[0]);
    let f = radix_run_fn(radix_of(x));
    assert forall|i: int| 2 <= i < te implies f(#[trigger] s[i]) by {
        assert(s[i] == d[i - 2]);
        assert(is_digit_of(d[i - 2], radix));
    }
    lemma_span_over(s, 2, te, f);
    assert(s.subrange(2, te) =~= d);
    assert forall|i: int| 0 <= i < d.len() implies #[trigger] d[i] != 0x5F by {
        assert(is_digit_of(d[i], radix));
    }
    lemma_no_underscores(d);
    assert(signed_digits(s, 0, 2, te) == d);
    lemma_radix_value(d, radix);
    assert(is_digit_of(d[0], radix));
    assert(d[0] != 0x2D);
    assert(int_literal(d, radix_of(x)) == Ok::<TokenModel, crate::error::IntErrorKind>(
        TokenModel::Int(radix_number(d, radix) as i128),
    ));
}

} // verus!
