//! Numeric literals: the digit run of an integer becomes `Int` when it
//! fits `i128`, `UInt` when it only fits `u128`; float text is checked
//! against Rust's `f64` literal syntax.

use vstd::prelude::*;

use crate::error::IntErrorKind;
use crate::lexer::{Token, TokenModel};
use crate::text::{digit_value, is_digit};

verus! {

/// Value of a run of digits in `radix`, most significant first.
pub open spec fn digits_value(d: Seq<u8>, radix: nat) -> nat
    decreases d.len(),
{
    if d.len() == 0 {
        0
    } else {
        digits_value(d.drop_last(), radix) * radix + digit_value(d.last())
    }
}

pub open spec fn i128_min_magnitude() -> nat {
    0x8000_0000_0000_0000_0000_0000_0000_0000
}

/// The token an integer literal (`-`? digits, as the lexer cuts it out)
/// stands for: `Int` when the value fits `i128`, `UInt` when a
/// non-negative value only fits `u128`; otherwise the reason it does not
/// fit.
pub open spec fn int_literal(c: Seq<u8>, radix: u32) -> Result<TokenModel, IntErrorKind> {
    if c.len() == 0 {
        Err(IntErrorKind::Empty)
    } else if c[0] == 0x2D {
        if c.len() == 1 {
            Err(IntErrorKind::InvalidDigit)
        } else {
            let v = digits_value(c.drop_first(), radix as nat);
            if v <= i128_min_magnitude() {
                Ok(TokenModel::Int((0 - v) as i128))
            } else {
                Err(IntErrorKind::InvalidDigit)
            }
        }
    } else {
        let v = digits_value(c, radix as nat);
        if v <= i128::MAX {
            Ok(TokenModel::Int(v as i128))
        } else if v <= u128::MAX {
            Ok(TokenModel::UInt(v as u128))
        } else {
            Err(IntErrorKind::PosOverflow)
        }
    }
}

pub open spec fn underscore_filter() -> spec_fn(u8) -> bool {
    |b: u8| b != 0x5F
}

/// `raw` with every `_` removed.
pub open spec fn strip_underscores(raw: Seq<u8>) -> Seq<u8> {
    raw.filter(underscore_filter())
}

proof fn lemma_digits_value_grows(d: Seq<u8>, radix: nat)
    requires
        d.len() > 0,
        radix >= 1,
    ensures
        digits_value(d, radix) >= digits_value(d.drop_last(), radix),
{
    let v = digits_value(d.drop_last(), radix);
    assert(v * radix >= v) by (nonlinear_arith)
        requires
            radix >= 1,
    ;
}

proof fn lemma_digits_value_prefix(d: Seq<u8>, radix: nat, i: int)
    requires
        0 <= i <= d.len(),
        radix >= 1,
    ensures
        digits_value(d, radix) >= digits_value(d.take(i), radix),
    decreases d.len() - i,
{
    if i < d.len() {
        lemma_digits_value_prefix(d, radix, i + 1);
        let t = d.take(i + 1);
        assert(t.drop_last() =~= d.take(i));
        lemma_digits_value_grows(t, radix);
    } else {
        assert(d.take(i) =~= d);
    }
}

/// `digits_value(d[start..end])`, or `None` when it exceeds `u128::MAX`.
fn accumulate_digits(d: &[u8], start: usize, end: usize, radix: u32) -> (r: Option<u128>)
    requires
        start <= end <= d@.len(),
        2 <= radix <= 16,
    ensures
        r matches Some(v) ==> v as nat == digits_value(d@.subrange(start as int, end as int), radix as nat),
        r is None ==> digits_value(d@.subrange(start as int, end as int), radix as nat) > u128::MAX,
{
    let mut acc: u128 = 0;
    let mut i = start;
    while i < end
        invariant
            start <= i <= end <= d@.len(),
            2 <= radix <= 16,
            acc as nat == digits_value(d@.subrange(start as int, i as int), radix as nat),
        decreases end - i,
    {
        let ghost prefix = d@.subrange(start as int, i as int);
        let ghost next = d@.subrange(start as int, i + 1);
        assert(next.drop_last() =~= prefix);
        assert(next.last() == d@[i as int]);
        let b = d[i];
        let dv: u128 = if b >= 0x30 && b <= 0x39 {
            (b - 0x30) as u128
        } else if b >= 0x61 && b <= 0x66 {
            (b - 0x61 + 10) as u128
        } else if b >= 0x41 && b <= 0x46 {
            (b - 0x41 + 10) as u128
        } else {
            0
        };
        assert(dv as nat == digit_value(b));
        match acc.checked_mul(radix as u128) {
            Some(m) => match m.checked_add(dv) {
                Some(v) => {
                    acc = v;
                },
                None => {
                    proof {
                        lemma_digits_value_prefix(d@.subrange(start as int, end as int), radix as nat, i + 1 - start);
                        assert(d@.subrange(start as int, end as int).take(i + 1 - start) =~= next);
                    }
                    return None;
                },
            },
            None => {
                proof {
                    lemma_digits_value_prefix(d@.subrange(start as int, end as int), radix as nat, i + 1 - start);
                    assert(d@.subrange(start as int, end as int).take(i + 1 - start) =~= next);
                    assert(acc as nat * radix as nat > u128::MAX);
                }
                return None;
            },
        }
        i = i + 1;
    }
    Some(acc)
}

/// Reads an underscore-free literal (`-`? digits) in `radix`. The lexer
/// hands over only runs of digits valid in `radix`, so digits are not
/// checked again here.
pub(crate) fn parse_int_literal(c: &[u8], radix: u32) -> (r: Result<Token, IntErrorKind>)
    requires
        2 <= radix <= 16,
    ensures
        match int_literal(c@, radix) {
            Ok(t) => r matches Ok(tok) && tok@ == t,
            Err(k) => r == Err::<Token, IntErrorKind>(k),
        },
{
    let n = c.len();
    if n == 0 {
        return Err(IntErrorKind::Empty);
    }
    if c[0] == 0x2D {
        if n == 1 {
            return Err(IntErrorKind::InvalidDigit);
        }
        proof {
            assert(c@.drop_first() =~= c@.subrange(1, n as int));
        }
        match accumulate_digits(c, 1, n, radix) {
            Some(v) => {
                if v <= 0x8000_0000_0000_0000_0000_0000_0000_0000u128 {
                    let t = if v == 0x8000_0000_0000_0000_0000_0000_0000_0000u128 {
                        i128::MIN
                    } else {
                        0 - (v as i128)
                    };
                    Ok(Token::Int(t))
                } else {
                    Err(IntErrorKind::InvalidDigit)
                }
            },
            None => Err(IntErrorKind::InvalidDigit),
        }
    } else {
        proof {
            assert(c@ =~= c@.subrange(0, n as int));
        }
        match accumulate_digits(c, 0, n, radix) {
            Some(v) => {
                if v <= 0x7FFF_FFFF_FFFF_FFFF_FFFF_FFFF_FFFF_FFFFu128 {
                    Ok(Token::Int(v as i128))
                } else {
                    Ok(Token::UInt(v))
                }
            },
            None => Err(IntErrorKind::PosOverflow),
        }
    }
}

/// Copies `raw[start..end]` without its underscores.
pub fn strip_underscores_exec(raw: &[u8], start: usize, end: usize) -> (out: Vec<u8>)
    requires
        start <= end <= raw@.len(),
    ensures
        out@ == strip_underscores(raw@.subrange(start as int, end as int)),
{
    let mut out: Vec<u8> = Vec::new();
    let mut i = start;
    while i < end
        invariant
            start <= i <= end <= raw@.len(),
            out@ == strip_underscores(raw@.subrange(start as int, i as int)),
        decreases end - i,
    {
        let ghost prefix = raw@.subrange(start as int, i as int);
        let ghost next = raw@.subrange(start as int, i + 1);
        assert(next.drop_last() =~= prefix);
        assert(next.last() == raw@[i as int]);
        proof {
            reveal_with_fuel(Seq::<_>::filter, 1);
        }
        if raw[i] != 0x5F {
            out.push(raw[i]);
        }
        i = i + 1;
    }
    out
}

/// End of the run of ASCII digits starting at `i`.
pub open spec fn digit_run_end(c: Seq<u8>, i: int) -> int
    decreases c.len() - i,
{
    if 0 <= i < c.len() && is_digit(c[i]) {
        digit_run_end(c, i + 1)
    } else {
        i
    }
}

pub open spec fn is_sign(b: u8) -> bool {
    b == 0x2B || b == 0x2D
}

/// Rust's decimal floating-point literal syntax (what `str::parse` of a
/// float accepts, apart from the `inf` / `nan` spellings):
/// `[+-]? (D+ | D+ '.' D* | D* '.' D+) ([eE] [+-]? D+)?`.
pub open spec fn float_literal_syntax(c: Seq<u8>) -> bool {
    let m = if c.len() > 0 && is_sign(c[0]) { 1int } else { 0int };
    let int_end = digit_run_end(c, m);
    let (frac_digits, mant_end) = if int_end < c.len() && c[int_end] == 0x2E {
        (digit_run_end(c, int_end + 1) - (int_end + 1), digit_run_end(c, int_end + 1))
    } else {
        (0int, int_end)
    };
    let mantissa_ok = (int_end - m) + frac_digits >= 1;
    if mant_end == c.len() {
        mantissa_ok
    } else if c[mant_end] == 0x65 || c[mant_end] == 0x45 {
        let e = if mant_end + 1 < c.len() && is_sign(c[mant_end + 1]) {
            mant_end + 2
        } else {
            mant_end + 1
        };
        mantissa_ok && digit_run_end(c, e) > e && digit_run_end(c, e) == c.len()
    } else {
        false
    }
}

fn digit_run(c: &[u8], i: usize) -> (e: usize)
    requires
        i <= c@.len(),
    ensures
        e as int == digit_run_end(c@, i as int),
        i <= e <= c@.len(),
{
    let mut e = i;
    while e < c.len() && c[e] >= 0x30 && c[e] <= 0x39
        invariant
            i <= e <= c@.len(),
            digit_run_end(c@, e as int) == digit_run_end(c@, i as int),
        decreases c@.len() - e,
    {
        e = e + 1;
    }
    e
}

/// Checks [`float_literal_syntax`].
pub fn is_float_literal(c: &[u8]) -> (r: bool)
    ensures
        r == float_literal_syntax(c@),
{
    let n = c.len();
    let m: usize = if n > 0 && (c[0] == 0x2B || c[0] == 0x2D) {
        1
    } else {
        0
    };
    let int_end = digit_run(c, m);
    let (frac_digits, mant_end) = if int_end < n && c[int_end] == 0x2E {
        let f = digit_run(c, int_end + 1);
        (f - (int_end + 1), f)
    } else {
        (0, int_end)
    };
    let mantissa_ok = (int_end - m) + frac_digits >= 1;
    if mant_end == n {
        mantissa_ok
    } else if c[mant_end] == 0x65 || c[mant_end] == 0x45 {
        let e = if mant_end + 1 < n && (c[mant_end + 1] == 0x2B || c[mant_end + 1] == 0x2D) {
            mant_end + 2
        } else {
            mant_end + 1
        };
        let f = digit_run(c, e);
        mantissa_ok && f > e && f == n
    } else {
        false
    }
}

} // verus!
