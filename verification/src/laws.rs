//! Properties of the library as a whole: what holds across calls, across
//! dialects, and between what the writer writes and what the lexer and
//! the reader make of it.

use vstd::prelude::*;

use crate::de::{
    advance, bool_of, ident_after_at, sigil_token, bytes_of, signed_of, unsigned_of, first_of, is_none_ident, look, pascal_head, string_of, with_next, StreamState,
};
use crate::error::{ErrorModel, HeadKind, LexError};
use crate::message::custom;
use crate::lexer::{
    alias_after, next_in_state, AliasState, byte_at, decimal_scan, hex_decode, lower_hex_fn, ident_continue_fn, lex_at, skip_trivia, span_end, spec_next_token, Dialect, TokenModel,
};
use crate::number::{digits_value, int_literal, strip_underscores, underscore_filter};
use crate::text::{ascii_text, digit_value, is_digit, spec_ident_continue};
use crate::ser::{
    bind_name, decimal_digits, digit_char, sigil_of, Sentinel, hex_char, hex_text, int_text,
    bare_string_eligible, has_multiline_closer, is_ident_continue_char, pascal_case, str_literal_text,
    escape_char, escape_text, bracket_text, quoted_text, seq_open_char, seq_close_char,
};
use crate::de::{seq_open_token, seq_close_token};
use crate::dedent::dedent_bytes;
use crate::ser::{bytes_lt, float_text, insert_by_key, key_after, map_text, sort_entries, EntryModel};
use vstd::multiset::Multiset;
use vstd::utf8::{encode_scalar, encode_utf8};

verus! {

/// Tokens that only the nexus dialect knows.
pub open spec fn nexus_only(t: TokenModel) -> bool {
    match t {
        TokenModel::Tilde | TokenModel::At | TokenModel::Bang | TokenModel::Question
        | TokenModel::Star | TokenModel::LBrace | TokenModel::RBrace | TokenModel::LBracePipe
        | TokenModel::RBracePipe | TokenModel::LParenPipe | TokenModel::RParenPipe
        | TokenModel::LBracketPipe | TokenModel::RBracketPipe => true,
        _ => false,
    }
}

/// Looking at the next token does not change what is read next: after a
/// look (`Deserializer::peek`), taking a token (`Deserializer::next`)
/// yields the token the look saw and leaves the stream where taking it
/// directly would have, whenever the look did not fail.
pub proof fn law_look_then_take(d: Dialect, s: Seq<u8>, st: StreamState)
    requires
        first_of(d, s, st).0 is Ok,
        0 <= st.pos,
    ensures
        first_of(d, s, look(d, s, st)).0 == first_of(d, s, st).0,
        advance(d, s, look(d, s, st)) == advance(d, s, st),
{
    if st.peeked is None {
        let q = skip_trivia(s, st.pos);
        if q >= s.len() {
            assert(skip_trivia(s, q) == q);
        }
    }
}

/// The comparison operators `!=`, `<=` and `>=` are reserved in both
/// dialects, and `<` and `>` alone in nexus, where they do not delimit
/// sequences: where the next token would start with one of them, the
/// lexer refuses it at that offset.
pub proof fn law_comparisons_reserved(d: Dialect, s: Seq<u8>, p: int, alias: bool)
    requires
        0 <= skip_trivia(s, p) < s.len(),
        ({
            let q = skip_trivia(s, p);
            ||| d == Dialect::Nexus && s[q] == 0x3C
            ||| d == Dialect::Nexus && s[q] == 0x3E
            ||| (s[q] == 0x21 || s[q] == 0x3C || s[q] == 0x3E) && q + 1 < s.len() && s[q + 1]
                == 0x3D
        }),
    ensures
        spec_next_token(d, s, p, alias).0 == Err::<Option<TokenModel>, LexError>(
            LexError::ReservedToken { byte: s[skip_trivia(s, p)], offset: skip_trivia(s, p) as usize },
        ),
{
}

/// `=` is a token only in the nexus bind-alias position, right after a
/// bind name `@a`; anywhere else, and always in nota, it is refused as
/// reserved.
pub proof fn law_equals_only_as_bind_alias(d: Dialect, s: Seq<u8>, p: int, alias: bool)
    requires
        0 <= skip_trivia(s, p) < s.len(),
        s[skip_trivia(s, p)] == 0x3D,
    ensures
        d == Dialect::Nexus && alias ==> spec_next_token(d, s, p, alias) == (
            Ok::<Option<TokenModel>, LexError>(Some(TokenModel::Equals)),
            skip_trivia(s, p) + 1,
        ),
        !(d == Dialect::Nexus && alias) ==> spec_next_token(d, s, p, alias).0 == Err::<
            Option<TokenModel>,
            LexError,
        >(LexError::ReservedToken { byte: 0x3D, offset: skip_trivia(s, p) as usize }),
{
}

/// The lexer remembers an `@` followed by an identifier: that is the
/// state in which an `=` is a bind alias, and no other.
pub proof fn law_bind_alias_state(st: AliasState, m: Result<Option<TokenModel>, LexError>)
    ensures
        (alias_after(st, m) == AliasState::AfterBindName) == (st == AliasState::AfterAt && m matches Ok(
            Some(TokenModel::Ident(_)),
        )),
        (alias_after(st, m) == AliasState::AfterAt) == (m == Ok::<Option<TokenModel>, LexError>(
            Some(TokenModel::At),
        )),
{
}

/// The nota dialect never yields a nexus-only token.
pub proof fn law_nota_has_no_nexus_tokens(s: Seq<u8>, p: int, alias: bool)
    ensures
        spec_next_token(Dialect::Nota, s, p, alias).0 matches Ok(Some(t)) ==> !nexus_only(t),
{
    let q = skip_trivia(s, p);
    if 0 <= q < s.len() {
        lemma_nota_token_not_nexus(s, q, alias);
    }
}

proof fn lemma_nota_token_not_nexus(s: Seq<u8>, q: int, alias: bool)
    requires
        0 <= q < s.len(),
    ensures
        lex_at(Dialect::Nota, s, q, alias).0 matches Ok(t) ==> !nexus_only(t),
{
    let b = s[q];
    if b == 0x22 {
        let r = crate::lexer::lex_string(s, q);
        assert(r.0 matches Ok(t) ==> t is Str);
    } else if b == 0x2D || crate::text::is_digit(b) {
        let r = crate::lexer::lex_number(s, q);
        assert(r.0 matches Ok(t) ==> (t is Int || t is UInt || t is Float));
    }
}

proof fn lemma_skip_trivia_bounds(s: Seq<u8>, p: int)
    requires
        0 <= p,
    ensures
        p <= skip_trivia(s, p),
        p <= s.len() ==> skip_trivia(s, p) <= s.len(),
    decreases s.len() - p,
{
    if 0 <= p < s.len() && crate::text::is_ascii_ws(s[p]) {
        lemma_skip_trivia_bounds(s, p + 1);
    } else if 0 <= p && p + 1 < s.len() && s[p] == 0x3B && s[p + 1] == 0x3B {
        crate::lexer::lemma_comment_end(s, p);
        lemma_skip_trivia_bounds(s, crate::lexer::comment_end(s, p));
    }
}

/// The next token from `p` starts on a byte that both dialects read
/// alike: not `[` (a string in nota, a bracket in nexus), nor `<` or `>`
/// (angle brackets in nota, reserved in nexus).
pub open spec fn starts_alike(s: Seq<u8>, p: int) -> bool {
    let b = byte_at(s, skip_trivia(s, p));
    b != Some(0x5Bu8) && b != Some(0x3Cu8) && b != Some(0x3Eu8)
}

/// Each of the next `n` tokens that nota reads from `p` starts alike.
pub open spec fn tokens_start_alike(s: Seq<u8>, p: int, st: AliasState, n: nat) -> bool
    decreases n,
{
    if n == 0 {
        true
    } else {
        let (r, e) = next_in_state(Dialect::Nota, s, p, st);
        starts_alike(s, p) && tokens_start_alike(s, e, alias_after(st, r), (n - 1) as nat)
    }
}

/// The nexus dialect extends nota token by token: a token that nota reads
/// is read the same by nexus, and ends at the same place, unless it starts
/// with `[`, `<` or `>`, or is a `(` directly followed by `|` (which nexus
/// reads as `(|`).
pub proof fn law_nexus_extends_nota(s: Seq<u8>, p: int, alias: bool)
    requires
        0 <= p,
        spec_next_token(Dialect::Nota, s, p, alias).0 is Ok,
        starts_alike(s, p),
        !(spec_next_token(Dialect::Nota, s, p, alias).0 matches Ok(Some(t)) && t is LParen
            && byte_at(s, spec_next_token(Dialect::Nota, s, p, alias).1) == Some(0x7Cu8)),
    ensures
        spec_next_token(Dialect::Nexus, s, p, alias) == spec_next_token(Dialect::Nota, s, p, alias),
{
    let q = skip_trivia(s, p);
    lemma_skip_trivia_bounds(s, p);
    if 0 <= q < s.len() {
        let b = s[q];
        let nota = lex_at(Dialect::Nota, s, q, alias);
        let nexus = lex_at(Dialect::Nexus, s, q, alias);
        if b == 0x28 {
            assert(nota.1 == q + 1);
            assert(nexus == nota);
        } else if b == 0x7B || b == 0x7D || b == 0x7C || b == 0x7E || b == 0x40 || b == 0x21
            || b == 0x3F || b == 0x2A || b == 0x3D {
            assert(nota.0 is Err);
        } else {
            assert(nexus == nota);
        }
    }
}

/// Nexus reads every nota text the way nota does: when nota reads the
/// tokens `toks` from `p` and then the end of the input, and none of them
/// starts with `[`, `<` or `>`, nexus reads the same tokens, ending each at
/// the same place, and then the end.
pub proof fn law_nexus_reads_nota_text(s: Seq<u8>, p: int, st: AliasState, toks: Seq<TokenModel>)
    requires
        0 <= p,
        lexes_as(Dialect::Nota, s, p, st, toks),
        tokens_start_alike(s, p, st, toks.len()),
    ensures
        lexes_as(Dialect::Nexus, s, p, st, toks),
    decreases toks.len(),
{
    let a = st == AliasState::AfterBindName;
    let (r, e) = next_in_state(Dialect::Nota, s, p, st);
    if toks.len() > 0 {
        let st2 = alias_after(st, r);
        let a2 = st2 == AliasState::AfterBindName;
        lemma_next_end_ge(Dialect::Nota, s, p, a);
        if toks[0] is LParen && byte_at(s, e) == Some(0x7Cu8) {
            // Nota refuses the `|` that follows.
            assert(lexes_as(Dialect::Nota, s, e, st2, toks.drop_first()));
            reveal_with_fuel(lexes_as, 2);
            assert(next_in_state(Dialect::Nota, s, e, st2).0 is Ok);
            assert(skip_trivia(s, e) == e);
            assert(lex_at(Dialect::Nota, s, e, a2).0 is Err);
            assert(next_in_state(Dialect::Nota, s, e, st2).0 is Err);
            assert(false);
        }
        law_nexus_extends_nota(s, p, a);
        law_nexus_reads_nota_text(s, e, st2, toks.drop_first());
    } else {
        law_nexus_extends_nota(s, p, a);
    }
}

/// A head (struct, unit struct, newtype or variant name) is accepted
/// exactly when it is an identifier that starts with an ASCII capital;
/// it is then read as that identifier. An identifier that does not is
/// refused by a message naming it and the head's kind; any other token
/// by one naming that token.
pub proof fn law_pascal_head(kind: HeadKind, t: TokenModel, name: Seq<char>)
    ensures
        pascal_head(kind, t) == Ok::<Seq<char>, ErrorModel>(name) <==> (t == TokenModel::Ident(name)
            && name.len() > 0 && 'A' <= name[0] <= 'Z'),
        t == TokenModel::Ident(name) && !(name.len() > 0 && 'A' <= name[0] <= 'Z') ==> pascal_head(
            kind,
            t,
        ) == Err::<Seq<char>, ErrorModel>(custom(ErrorModel::HeadNotPascalCase { kind, name })),
        !(t is Ident) ==> pascal_head(kind, t) == Err::<Seq<char>, ErrorModel>(
            custom(ErrorModel::ExpectedHead { kind, got: t }),
        ),
{
}

/// `.`, `e` or `E`: the bytes that make a number a float.
pub open spec fn is_float_mark(b: u8) -> bool {
    b == 0x2E || b == 0x65 || b == 0x45
}

proof fn lemma_scan_marks(s: Seq<u8>, q: int, dot: bool, exp: bool)
    requires
        0 <= q,
    ensures
        ({
            let (e, d2, x2) = decimal_scan(s, q, dot, exp);
            (d2 || x2) <==> (dot || exp || exists|k: int| q <= k < e && is_float_mark(#[trigger] s[k]))
        }),
    decreases s.len() - q,
{
    if q < s.len() {
        let b = s[q];
        let (e, d2, x2) = decimal_scan(s, q, dot, exp);
        if is_digit(b) || b == 0x5F {
            lemma_scan_marks(s, q + 1, dot, exp);
            if exists|k: int| q <= k < e && is_float_mark(#[trigger] s[k]) {
                let k = choose|k: int| q <= k < e && is_float_mark(#[trigger] s[k]);
                assert(k != q);
            }
        } else if b == 0x2E && !dot && !exp {
            lemma_scan_marks(s, q + 1, true, exp);
            lemma_decimal_scan_ge(s, q + 1, true, exp);
            assert(is_float_mark(s[q]));
        } else if (b == 0x65 || b == 0x45) && !exp {
            if q + 1 < s.len() && (s[q + 1] == 0x2B || s[q + 1] == 0x2D) {
                lemma_scan_marks(s, q + 2, dot, true);
                lemma_decimal_scan_ge(s, q + 2, dot, true);
            } else {
                lemma_scan_marks(s, q + 1, dot, true);
                lemma_decimal_scan_ge(s, q + 1, dot, true);
            }
            assert(is_float_mark(s[q]));
        }
    }
}

/// A decimal number is read as a float exactly when its text holds a
/// `.` or an exponent `e` / `E`; otherwise as an integer.
pub proof fn law_float_exactly_when_marked(s: Seq<u8>, p: int)
    requires
        0 <= p < s.len(),
        s[p] == 0x2D || is_digit(s[p]),
        ({
            let q = if s[p] == 0x2D {
                p + 1
            } else {
                p
            };
            !(q + 1 < s.len() && s[q] == 0x30 && crate::lexer::radix_of(s[q + 1]) != 0)
        }),
        crate::lexer::lex_number(s, p).0 is Ok,
    ensures
        (crate::lexer::lex_number(s, p).0 matches Ok(TokenModel::Float(_))) <==> exists|k: int|
            p <= k < crate::lexer::lex_number(s, p).1 && is_float_mark(#[trigger] s[k]),
        !(crate::lexer::lex_number(s, p).0 matches Ok(TokenModel::Float(_))) ==> (
        crate::lexer::lex_number(s, p).0 matches Ok(t) && (t is Int || t is UInt)),
{
    let q = if s[p] == 0x2D {
        p + 1
    } else {
        p
    };
    lemma_scan_marks(s, q, false, false);
    let (e, dot, exp) = decimal_scan(s, q, false, false);
    if s[p] == 0x2D {
        if exists|k: int| p <= k < e && is_float_mark(#[trigger] s[k]) {
            let k = choose|k: int| p <= k < e && is_float_mark(#[trigger] s[k]);
            assert(k != p);
        }
    }
    let cleaned = strip_underscores(s.subrange(p, e));
    if !(dot || exp) {
        assert(int_literal(cleaned, 10) is Ok);
    }
}

proof fn lemma_span_all(s: Seq<u8>, p: int, f: spec_fn(u8) -> bool)
    requires
        0 <= p,
    ensures
        span_end(s, p, f) <= s.len() || span_end(s, p, f) == p,
        forall|i: int| p <= i < span_end(s, p, f) ==> f(#[trigger] s[i]),
    decreases s.len() - p,
{
    if 0 <= p < s.len() && f(s[p]) {
        lemma_span_all(s, p + 1, f);
    }
}

/// What the lexer reads as an identifier is exactly a string the writer
/// writes bare, or `None`: every identifier token other than `None` holds
/// a bare-eligible string (and `law_bare_string_round_trip` gives the
/// converse).
#[verifier::spinoff_prover]
pub proof fn law_identifier_is_bare_string(d: Dialect, s: Seq<u8>, p: int, alias: bool, x: Seq<char>)
    requires
        0 <= p,
        spec_next_token(d, s, p, alias).0 == Ok::<Option<TokenModel>, LexError>(
            Some(TokenModel::Ident(x)),
        ),
        x != seq!['N', 'o', 'n', 'e'],
    ensures
        bare_string_eligible(x),
{
    let q = skip_trivia(s, p);
    lemma_skip_trivia_bounds(s, p);
    assert(0 <= q < s.len());
    let b = s[q];
    assert(crate::text::spec_ident_start(b));
    assert(lex_at(d, s, q, alias) == crate::lexer::lex_ident(s, q));
    let e = span_end(s, q, ident_continue_fn());
    lemma_span_all(s, q, ident_continue_fn());
    assert(crate::text::spec_ident_continue(b));
    lemma_span_end_ge(s, q + 1, ident_continue_fn());
    assert(e > q);
    let t = s.subrange(q, e);
    assert(x == ascii_text(t));
    assert forall|i: int| 1 <= i < x.len() implies is_ident_continue_char(#[trigger] x[i]) by {
        assert(t[i] == s[q + i]);
        assert(crate::text::spec_ident_continue(s[q + i]));
    }
    assert(t[0] == b);
    if x == seq!['t', 'r', 'u', 'e'] {
        assert(t.len() == 4);
        assert(x[0] == t[0] as char && x[1] == t[1] as char && x[2] == t[2] as char && x[3]
            == t[3] as char);
        assert(t =~= seq![0x74u8, 0x72u8, 0x75u8, 0x65u8]);
    }
    if x == seq!['f', 'a', 'l', 's', 'e'] {
        assert(t.len() == 5);
        assert(x[0] == t[0] as char && x[1] == t[1] as char && x[2] == t[2] as char && x[3]
            == t[3] as char && x[4] == t[4] as char);
        assert(t =~= seq![0x66u8, 0x61u8, 0x6Cu8, 0x73u8, 0x65u8]);
    }
}

/// `UInt` is only for values above `i128::MAX`: whatever fits `i128` is
/// read as `Int`.
pub proof fn law_uint_only_above_i128(d: Dialect, s: Seq<u8>, p: int, alias: bool)
    ensures
        spec_next_token(d, s, p, alias).0 matches Ok(Some(TokenModel::UInt(u))) ==> u > i128::MAX,
{
    let q = skip_trivia(s, p);
    if 0 <= q < s.len() {
        let b = s[q];
        if b == 0x2D || crate::text::is_digit(b) {
            let r = crate::lexer::lex_number(s, q);
            assert(r.0 matches Ok(TokenModel::UInt(u)) ==> u > i128::MAX);
        } else if b == 0x22 {
            let r = crate::lexer::lex_string(s, q);
            assert(r.0 matches Ok(t) ==> t is Str);
        }
    }
}

/// A float is always written with a `.` or an exponent, so that it reads
/// back as a float and never as an integer.
pub proof fn law_float_text_is_marked(s: Seq<char>)
    ensures
        float_text(s).contains('.') || float_text(s).contains('e') || float_text(s).contains('E'),
{
    if !(s.contains('.') || s.contains('e') || s.contains('E')) {
        let t = s + seq!['.', '0'];
        assert(t[s.len() as int] == '.');
    }
}

// ---------- what the writer writes, the reader reads ----------

/// A reader's state before it has read anything.
pub open spec fn reader_start() -> StreamState {
    StreamState { pos: 0, alias: AliasState::Other, peeked: None }
}

/// A reader started on the text `written` takes, by `rule`, the value `x`
/// from its first token, and then finds the end of the input.
pub open spec fn reads_back<X>(
    d: Dialect,
    written: Seq<char>,
    rule: spec_fn(TokenModel) -> Result<X, ErrorModel>,
    x: X,
) -> bool {
    let text = encode_utf8(written);
    &&& with_next(text, first_of(d, text, reader_start()).0, rule) == Ok::<X, ErrorModel>(x)
    &&& first_of(d, text, advance(d, text, reader_start())).0 == Ok::<Option<TokenModel>, LexError>(None)
}

proof fn lemma_ascii_char(c: char)
    requires
        c <= '\u{7f}',
    ensures
        (c as u8) as u32 == c as u32,
        ((c as u8) as char) == c,
        (c as u32) < 0x80,
{
    let u = c as u32;
    assert(u <= 0x7f);
    assert((u as u8) as u32 == u) by (bit_vector)
        requires
            u <= 0x7f,
    ;
    assert(c as u8 == u as u8);
    vstd::utf8::char_u32_cast(c, u);
}

proof fn lemma_ascii_encode(v: Seq<char>)
    requires
        vstd::utf8::is_ascii_chars(v),
    ensures
        encode_utf8(v).len() == v.len(),
        forall|i: int| 0 <= i < v.len() ==> #[trigger] encode_utf8(v)[i] == v[i] as u8,
        forall|i: int| 0 <= i < v.len() ==> (#[trigger] encode_utf8(v)[i]) as u32 == v[i] as u32,
        ascii_text(encode_utf8(v)) == v,
{
    vstd::utf8::is_ascii_chars_encode_utf8(v);
    let b = encode_utf8(v);
    assert forall|i: int| 0 <= i < v.len() implies (#[trigger] b[i]) as u32 == v[i] as u32 by {
        lemma_ascii_char(v[i]);
    }
    assert(ascii_text(b) =~= v) by {
        assert forall|i: int| 0 <= i < v.len() implies #[trigger] ascii_text(b)[i] == v[i] by {
            lemma_ascii_char(v[i]);
        }
    }
}

proof fn lemma_span_to_end(s: Seq<u8>, p: int, f: spec_fn(u8) -> bool)
    requires
        0 <= p <= s.len(),
        forall|i: int| p <= i < s.len() ==> f(#[trigger] s[i]),
    ensures
        span_end(s, p, f) == s.len(),
    decreases s.len() - p,
{
    if p < s.len() {
        lemma_span_to_end(s, p + 1, f);
    }
}

/// The token an identifier-shaped word reads as.
pub open spec fn word_token(v: Seq<char>) -> TokenModel {
    if v == seq!['t', 'r', 'u', 'e'] {
        TokenModel::Bool(true)
    } else if v == seq!['f', 'a', 'l', 's', 'e'] {
        TokenModel::Bool(false)
    } else {
        TokenModel::Ident(v)
    }
}

/// A non-empty identifier: an ASCII letter or `_`, then letters, digits,
/// `_` or `-`.
pub open spec fn word_shaped(v: Seq<char>) -> bool {
    &&& v.len() > 0
    &&& ('a' <= v[0] <= 'z') || ('A' <= v[0] <= 'Z') || v[0] == '_'
    &&& forall|i: int| 1 <= i < v.len() ==> is_ident_continue_char(#[trigger] v[i])
}


/// Lexing an identifier-shaped ASCII word that fills the input from `p`.
proof fn lemma_lex_word_at(d: Dialect, s: Seq<u8>, p: int, v: Seq<char>, a: bool)
    requires
        word_shaped(v),
        0 <= p <= s.len(),
        s.subrange(p, s.len() as int) == encode_utf8(v),
    ensures
        spec_next_token(d, s, p, a) == (
            Ok::<Option<TokenModel>, LexError>(Some(word_token(v))),
            s.len() as int,
        ),
        forall|b: bool|
            #[trigger] spec_next_token(d, s, s.len() as int, b).0 == Ok::<
                Option<TokenModel>,
                LexError,
            >(None),
{
    assert forall|i: int| 0 <= i < v.len() implies '\0' <= #[trigger] v[i] <= '\u{7f}' by {
        if i > 0 {
            assert(is_ident_continue_char(v[i]));
        }
    }
    lemma_ascii_encode(v);
    let w = encode_utf8(v);
    let n = s.len() as int;
    assert forall|i: int| p <= i < n implies (ident_continue_fn())(#[trigger] s[i]) by {
        assert(s[i] == w[i - p]);
        assert(w[i - p] as u32 == v[i - p] as u32);
        if i > p {
            assert(is_ident_continue_char(v[i - p]));
        }
    }
    lemma_span_to_end(s, p, ident_continue_fn());
    assert(skip_trivia(s, n) == n);
    assert(s[p] == w[0]);
    assert(w[0] as u32 == v[0] as u32);
    assert(crate::text::spec_ident_start(s[p]));
    assert(skip_trivia(s, p) == p);
    let t = s.subrange(p, n);
    if crate::lexer::is_true_text(t) {
        assert(ascii_text(t) =~= seq!['t', 'r', 'u', 'e']);
    } else if v == seq!['t', 'r', 'u', 'e'] {
        assert(t =~= seq![0x74u8, 0x72u8, 0x75u8, 0x65u8]);
    }
    if crate::lexer::is_false_text(t) {
        assert(ascii_text(t) =~= seq!['f', 'a', 'l', 's', 'e']);
    } else if v == seq!['f', 'a', 'l', 's', 'e'] {
        assert(t =~= seq![0x66u8, 0x61u8, 0x6Cu8, 0x73u8, 0x65u8]);
    }
    assert(lex_at(d, s, p, a) == crate::lexer::lex_ident(s, p));
}

/// Lexing an identifier-shaped ASCII word that fills the input.
proof fn lemma_lex_whole_word(d: Dialect, v: Seq<char>)
    requires
        word_shaped(v),
    ensures
        first_of(d, encode_utf8(v), reader_start()).0 == Ok::<Option<TokenModel>, LexError>(
            Some(word_token(v)),
        ),
        first_of(d, encode_utf8(v), advance(d, encode_utf8(v), reader_start())).0 == Ok::<
            Option<TokenModel>,
            LexError,
        >(None),
{
    let s = encode_utf8(v);
    assert(s.subrange(0, s.len() as int) =~= s);
    lemma_lex_word_at(d, s, 0, v, false);
}

/// The bytes of one ASCII character followed by `rest`.
proof fn lemma_encode_ascii_prefix(c: char, rest: Seq<char>)
    requires
        c <= '\u{7f}',
    ensures
        encode_utf8(seq![c] + rest) == seq![c as u8] + encode_utf8(rest),
        (c as u8) as u32 == c as u32,
{
    let t = seq![c] + rest;
    assert(t[0] == c);
    assert(t.drop_first() =~= rest);
    lemma_ascii_char(c);
    lemma_ascii_encode(seq![c]);
    assert(encode_utf8(seq![c]) == encode_scalar(c as u32) + encode_utf8(seq![c].drop_first()));
    assert(seq![c].drop_first() =~= Seq::<char>::empty());
    assert(encode_scalar(c as u32) =~= seq![c as u8]);
}

proof fn lemma_first_byte_not_equals(rest: Seq<char>)
    requires
        rest.len() > 0,
        rest[0] != '=',
    ensures
        encode_utf8(rest).len() > 0,
        encode_utf8(rest)[0] != 0x3D,
{
    let x = rest[0] as u32;
    vstd::utf8::char_is_scalar(rest[0]);
    assert(encode_utf8(rest) == encode_scalar(x) + encode_utf8(rest.drop_first()));
    let b0 = encode_scalar(x)[0];
    if vstd::utf8::has_width_1_encoding(x) {
        assert((x & 0x7F) as u8 == x as u8 && (x as u8) as u32 == x) by (bit_vector)
            requires
                x <= 0x7F,
        ;
        if b0 == 0x3D {
            vstd::utf8::char_u32_cast(rest[0], x);
            assert(x == 0x3D);
            assert((x as char) == '=');
        }
    } else if vstd::utf8::has_width_2_encoding(x) {
        assert(0xC0u8 | ((x >> 6) & 0x1F) as u8 != 0x3D) by (bit_vector);
    } else if vstd::utf8::has_width_3_encoding(x) {
        assert(0xE0u8 | ((x >> 12) & 0x0F) as u8 != 0x3D) by (bit_vector);
    } else {
        assert(0xF0u8 | ((x >> 18) & 0x7) as u8 != 0x3D) by (bit_vector);
    }
}

/// In nexus, a prefix wrapper (mutate, negate, validate, subscribe) is
/// written as its sigil before the value; the reader finds that sigil as
/// the first token, whatever the value is (a value never starts with `=`,
/// which after `!` would read as the reserved `!=`).
pub proof fn law_sigil_round_trip(s: Sentinel, rest: Seq<char>)
    requires
        s is Mutate || s is Negate || s is Validate || s is Subscribe,
        !(rest.len() > 0 && rest[0] == '='),
    ensures
        first_of(Dialect::Nexus, encode_utf8(seq![sigil_of(s)] + rest), reader_start()) == (
            Ok::<Option<TokenModel>, LexError>(Some(sigil_token(s))),
            1int,
        ),
{
    let c = sigil_of(s);
    lemma_encode_ascii_prefix(c, rest);
    let b = encode_utf8(seq![c] + rest);
    assert(b[0] == c as u8);
    assert(skip_trivia(b, 0) == 0);
    if rest.len() > 0 {
        lemma_first_byte_not_equals(rest);
        assert(b[1] == encode_utf8(rest)[0]);
    }
}

/// In nexus, a bind is written `@name`; the reader finds `@` and then the
/// name, and nothing after it.
pub proof fn law_bind_round_trip(v: Seq<char>)
    requires
        bind_name(v),
    ensures
        ({
            let text = encode_utf8(seq!['@'] + v);
            let after_at = advance(Dialect::Nexus, text, reader_start());
            &&& first_of(Dialect::Nexus, text, reader_start()) == (
                Ok::<Option<TokenModel>, LexError>(Some(TokenModel::At)),
                1int,
            )
            &&& with_next(text, first_of(Dialect::Nexus, text, after_at).0, |t: TokenModel| ident_after_at(t))
                == Ok::<Seq<char>, ErrorModel>(v)
            &&& first_of(Dialect::Nexus, text, advance(Dialect::Nexus, text, after_at)).0 == Ok::<
                Option<TokenModel>,
                LexError,
            >(None)
        }),
{
    lemma_encode_ascii_prefix('@', v);
    let b = encode_utf8(seq!['@'] + v);
    assert(b[0] == 0x40);
    assert(skip_trivia(b, 0) == 0);
    assert(b.subrange(1, b.len() as int) =~= encode_utf8(v));
    lemma_lex_word_at(Dialect::Nexus, b, 1, v, false);
}

/// A string that is written bare reads back as that same string.
pub proof fn law_bare_string_round_trip(d: Dialect, v: Seq<char>)
    requires
        bare_string_eligible(v),
    ensures
        !has_multiline_closer(v),
        str_literal_text(d, v) == v,
        reads_back(d, str_literal_text(d, v), |t: TokenModel| string_of(t), v),
{
    if has_multiline_closer(v) {
        let i = choose|i: int| 0 <= i && i + 1 < v.len() && #[trigger] v[i] == '|' && v[i + 1] == ']';
        if i > 0 {
            assert(is_ident_continue_char(v[i]));
        }
    }
    lemma_lex_whole_word(d, v);
}

/// In nota, a string that does not go bare is written in brackets: `[v]`,
/// or, where it holds `]` or a line break, `[|`, a line break, `v`, a line
/// break unless `v` ends in one, and `|]`. Where it holds no `|]` and that
/// form reads back (a `[…]` text does not start with `|`; a `[| |]` body
/// is one that the dedent of multiline strings leaves as `v`), the lexer
/// reads the written text as that one string and then the end.
pub proof fn law_bracket_string_round_trip(v: Seq<char>)
    requires
        !bare_string_eligible(v),
        !has_multiline_closer(v),
        bracket_reads_back(v),
    ensures
        str_literal_text(Dialect::Nota, v) == bracket_text(v),
        lexes_as(
            Dialect::Nota,
            encode_utf8(bracket_text(v)),
            0,
            AliasState::Other,
            seq![TokenModel::Str(v)],
        ),
{
    law_written_value_reads_back(Dialect::Nota, Readable::Str(v));
}

/// A boolean written as `true` / `false` reads back as itself.
pub proof fn law_bool_round_trip(d: Dialect, b: bool)
    ensures
        reads_back(
            d,
            if b {
                seq!['t', 'r', 'u', 'e']
            } else {
                seq!['f', 'a', 'l', 's', 'e']
            },
            |t: TokenModel| bool_of(t),
            b,
        ),
{
    let v = if b {
        seq!['t', 'r', 'u', 'e']
    } else {
        seq!['f', 'a', 'l', 's', 'e']
    };
    lemma_lex_whole_word(d, v);
}

/// An absent option is written `None`, which the reader takes as absent
/// (`Deserializer::deserialize_option`), leaving nothing behind.
pub proof fn law_none_round_trip(d: Dialect)
    ensures
        ({
            let text = encode_utf8(seq!['N', 'o', 'n', 'e']);
            &&& first_of(d, text, reader_start()).0 matches Ok(t) && is_none_ident(t)
            &&& first_of(d, text, advance(d, text, reader_start())).0 == Ok::<
                Option<TokenModel>,
                LexError,
            >(None)
        }),
{
    lemma_lex_whole_word(d, seq!['N', 'o', 'n', 'e']);
}

/// A unit struct or unit variant is written as its name; a PascalCase,
/// identifier-shaped name reads back as that head.
pub proof fn law_unit_name_round_trip(d: Dialect, kind: HeadKind, name: Seq<char>)
    requires
        pascal_case(name),
        forall|i: int| 1 <= i < name.len() ==> is_ident_continue_char(#[trigger] name[i]),
    ensures
        reads_back(d, name, |t: TokenModel| pascal_head(kind, t), name),
{
    lemma_lex_whole_word(d, name);
}

proof fn lemma_decimal_digits(n: nat)
    ensures
        decimal_digits(n).len() >= 1,
        forall|i: int|
            0 <= i < decimal_digits(n).len() ==> '0' <= #[trigger] decimal_digits(n)[i] <= '9',
    decreases n,
{
    if n >= 10 {
        lemma_decimal_digits(n / 10);
        let a = decimal_digits(n / 10);
        let t = a + seq![digit_char(n % 10)];
        assert forall|i: int| 0 <= i < t.len() implies '0' <= #[trigger] t[i] <= '9' by {
            if i < a.len() {
                assert(t[i] == a[i]);
            }
        }
    }
}

/// The digit bytes of `n` have the value `n`.
proof fn lemma_decimal_value(n: nat, b: Seq<u8>)
    requires
        b.len() == decimal_digits(n).len(),
        forall|i: int| 0 <= i < b.len() ==> (#[trigger] b[i]) as u32 == decimal_digits(n)[i] as u32,
    ensures
        digits_value(b, 10) == n,
    decreases n,
{
    assert(digits_value(b, 10) == digits_value(b.drop_last(), 10) * 10 + digit_value(b.last()));
    if n < 10 {
        assert(b[0] as u32 == digit_char(n) as u32);
        assert(b.drop_last().len() == 0);
        assert(digits_value(b.drop_last(), 10) == 0);
        assert(digit_value(b[0]) == n);
    } else {
        let a = decimal_digits(n / 10);
        assert(decimal_digits(n) == a + seq![digit_char(n % 10)]);
        assert forall|i: int| 0 <= i < b.drop_last().len() implies (#[trigger] b.drop_last()[i]) as u32
            == a[i] as u32 by {
            assert(b[i] as u32 == decimal_digits(n)[i] as u32);
        }
        lemma_decimal_value(n / 10, b.drop_last());
        assert(b.last() as u32 == digit_char(n % 10) as u32);
        assert(digit_value(b.last()) == n % 10);
        assert(n == (n / 10) * 10 + n % 10);
    }
}

proof fn lemma_decimal_scan_digits(s: Seq<u8>, p: int)
    requires
        0 <= p <= s.len(),
        forall|i: int| p <= i < s.len() ==> is_digit(#[trigger] s[i]),
    ensures
        decimal_scan(s, p, false, false) == (s.len() as int, false, false),
    decreases s.len() - p,
{
    if p < s.len() {
        lemma_decimal_scan_digits(s, p + 1);
    }
}

proof fn lemma_no_underscores(s: Seq<u8>)
    requires
        forall|i: int| 0 <= i < s.len() ==> #[trigger] s[i] != 0x5F,
    ensures
        strip_underscores(s) == s,
    decreases s.len(),
{
    if s.len() > 0 {
        lemma_no_underscores(s.drop_last());
        reveal_with_fuel(Seq::<_>::filter, 1);
        assert(s.drop_last().push(s.last()) =~= s);
    } else {
        reveal_with_fuel(Seq::<_>::filter, 1);
        assert(s.filter(underscore_filter()) =~= s);
    }
}

/// The token an integer value reads as: `Int` when it fits `i128`,
/// `UInt` above.
pub open spec fn int_token(v: int) -> TokenModel {
    if v <= i128::MAX {
        TokenModel::Int(v as i128)
    } else {
        TokenModel::UInt(v as u128)
    }
}

/// The bytes of the decimal text of `v`: an optional `-`, then digits
/// whose value is the magnitude of `v`.
proof fn lemma_int_bytes(v: int)
    ensures
        ({
            let s = encode_utf8(int_text(v));
            let k: int = if v < 0 {
                1
            } else {
                0
            };
            &&& s.len() > k
            &&& (v < 0 ==> s[0] == 0x2D)
            &&& forall|i: int| k <= i < s.len() ==> is_digit(#[trigger] s[i])
            &&& forall|i: int| 0 <= i < s.len() ==> #[trigger] s[i] != 0x5F
            &&& digits_value(s.skip(k), 10) == (if v < 0 {
                0 - v
            } else {
                v
            })
        }),
{
    let m: nat = if v < 0 {
        (0 - v) as nat
    } else {
        v as nat
    };
    lemma_decimal_digits(m);
    let dd = decimal_digits(m);
    let t = int_text(v);
    let k: int = if v < 0 {
        1
    } else {
        0
    };
    assert(t.len() == dd.len() + k);
    assert forall|i: int| 0 <= i < t.len() implies '\0' <= #[trigger] t[i] <= '\u{7f}' by {
        if v < 0 && i > 0 {
            assert(t[i] == dd[i - 1]);
        } else if v >= 0 {
            assert(t[i] == dd[i]);
        }
    }
    lemma_ascii_encode(t);
    let s = encode_utf8(t);
    let n = s.len() as int;
    assert forall|i: int| k <= i < n implies is_digit(#[trigger] s[i]) by {
        assert(s[i] as u32 == t[i] as u32);
        assert(t[i] == dd[i - k]);
    }
    assert forall|i: int| 0 <= i < n implies #[trigger] s[i] != 0x5F by {
        assert(s[i] as u32 == t[i] as u32);
        if i >= k {
            assert(t[i] == dd[i - k]);
        }
    }
    if v < 0 {
        assert(s[0] as u32 == t[0] as u32);
        assert(t[0] == '-');
    }
    let digits = s.skip(k);
    assert forall|i: int| 0 <= i < digits.len() implies (#[trigger] digits[i]) as u32 == dd[i] as u32 by {
        assert(digits[i] == s[i + k]);
        assert(s[i + k] as u32 == t[i + k] as u32);
        assert(t[i + k] == dd[i]);
    }
    lemma_decimal_value(m, digits);
}

/// The decimal text of an integer in `i128::MIN ..= u128::MAX` lexes back
/// as that integer, and nothing follows.
proof fn lemma_lex_int_text(d: Dialect, v: int)
    requires
        i128::MIN <= v <= u128::MAX,
    ensures
        first_of(d, encode_utf8(int_text(v)), reader_start()).0 == Ok::<Option<TokenModel>, LexError>(
            Some(int_token(v)),
        ),
        first_of(d, encode_utf8(int_text(v)), advance(d, encode_utf8(int_text(v)), reader_start())).0
            == Ok::<Option<TokenModel>, LexError>(None),
{
    lemma_int_bytes(v);
    let s = encode_utf8(int_text(v));
    let n = s.len() as int;
    assert(crate::lexer::lex_number(s, 0) == (Ok::<TokenModel, LexError>(int_token(v)), n)) by {
        lemma_lex_number_int(s, v);
    }
    assert(skip_trivia(s, 0) == 0) by {
        if v >= 0 {
            assert(is_digit(s[0]));
        }
    }
    assert(skip_trivia(s, n) == n);
    assert(lex_at(d, s, 0, false) == crate::lexer::lex_number(s, 0)) by {
        if v >= 0 {
            assert(is_digit(s[0]));
        }
    }
}

proof fn lemma_lex_number_int(s: Seq<u8>, v: int)
    requires
        i128::MIN <= v <= u128::MAX,
        ({
            let k: int = if v < 0 {
                1
            } else {
                0
            };
            &&& s.len() > k
            &&& (v < 0 ==> s[0] == 0x2D)
            &&& forall|i: int| k <= i < s.len() ==> is_digit(#[trigger] s[i])
            &&& forall|i: int| 0 <= i < s.len() ==> #[trigger] s[i] != 0x5F
            &&& digits_value(s.skip(k), 10) == (if v < 0 {
                0 - v
            } else {
                v
            })
        }),
    ensures
        crate::lexer::lex_number(s, 0) == (Ok::<TokenModel, LexError>(int_token(v)), s.len() as int),
{
    let n = s.len() as int;
    let k: int = if v < 0 {
        1
    } else {
        0
    };
    assert(is_digit(s[k]));
    if k + 1 < n {
        assert(is_digit(s[k + 1]));
    }
    lemma_decimal_scan_digits(s, k);
    assert(s.subrange(0, n) =~= s);
    lemma_no_underscores(s);
    if v < 0 {
        assert(s.drop_first() =~= s.skip(1));
    } else {
        assert(s.skip(0) =~= s);
    }
    assert(int_literal(s, 10) == Ok::<TokenModel, crate::error::IntErrorKind>(int_token(v)));
}

/// A signed integer is written in decimal and reads back as itself.
pub proof fn law_signed_round_trip(d: Dialect, v: i128)
    ensures
        reads_back(d, int_text(v as int), |t: TokenModel| signed_of(t), v),
{
    lemma_lex_int_text(d, v as int);
}

/// An unsigned integer is written in decimal and reads back as itself,
/// also above `i128::MAX`.
pub proof fn law_unsigned_round_trip(d: Dialect, v: u128)
    ensures
        reads_back(d, int_text(v as int), |t: TokenModel| unsigned_of(t), v),
{
    lemma_lex_int_text(d, v as int);
}

proof fn lemma_hex_text(v: Seq<u8>)
    ensures
        hex_text(v).len() == 2 * v.len(),
        forall|i: int|
            0 <= i < hex_text(v).len() ==> ('0' <= #[trigger] hex_text(v)[i] <= '9') || ('a'
                <= hex_text(v)[i] <= 'f'),
    decreases v.len(),
{
    if v.len() > 0 {
        lemma_hex_text(v.drop_last());
        let a = hex_text(v.drop_last());
        let x = v.last();
        let t = a + seq![hex_char((x / 16) as nat), hex_char((x % 16) as nat)];
        assert forall|i: int| 0 <= i < t.len() implies ('0' <= #[trigger] t[i] <= '9') || ('a' <= t[i]
            <= 'f') by {
            if i < a.len() {
                assert(t[i] == a[i]);
            }
        }
    }
}

proof fn lemma_hex_decode_concat(a: Seq<u8>, b: Seq<u8>)
    requires
        a.len() % 2 == 0,
    ensures
        hex_decode(a + b) == hex_decode(a) + hex_decode(b),
    decreases a.len(),
{
    if a.len() == 0 {
        assert(a + b =~= b);
    } else {
        lemma_hex_decode_concat(a.skip(2), b);
        assert((a + b).skip(2) =~= a.skip(2) + b);
        assert((a + b)[0] == a[0] && (a + b)[1] == a[1]);
    }
}

spec fn hex_byte(x: nat) -> u8 {
    (hex_char(x) as u32) as u8
}

proof fn lemma_hex_char_value(x: nat)
    requires
        x < 16,
    ensures
        (hex_char(x) as u32) < 0x80,
        digit_value(hex_byte(x)) == x,
{
}

/// The hex digit bytes of `v` decode back to `v`.
proof fn lemma_hex_decode_text(v: Seq<u8>, h: Seq<u8>)
    requires
        h.len() == hex_text(v).len(),
        forall|i: int| 0 <= i < h.len() ==> (#[trigger] h[i]) as u32 == hex_text(v)[i] as u32,
    ensures
        hex_decode(h) == v,
    decreases v.len(),
{
    lemma_hex_text(v);
    if v.len() == 0 {
        assert(h.len() == 0);
        assert(v =~= seq![]);
    } else {
        let a = hex_text(v.drop_last());
        lemma_hex_text(v.drop_last());
        let x = v.last();
        let p = h.subrange(0, a.len() as int);
        let q = h.subrange(a.len() as int, h.len() as int);
        assert(hex_text(v) == a + seq![hex_char((x / 16) as nat), hex_char((x % 16) as nat)]);
        assert forall|i: int| 0 <= i < p.len() implies (#[trigger] p[i]) as u32 == a[i] as u32 by {
            assert(h[i] as u32 == hex_text(v)[i] as u32);
        }
        lemma_hex_decode_text(v.drop_last(), p);
        lemma_hex_decode_concat(p, q);
        assert(p + q =~= h);
        assert(q.len() == 2);
        assert(q[0] as u32 == hex_char((x / 16) as nat) as u32);
        assert(q[1] as u32 == hex_char((x % 16) as nat) as u32);
        lemma_hex_char_value((x / 16) as nat);
        lemma_hex_char_value((x % 16) as nat);
        assert(q[0] == hex_byte((x / 16) as nat));
        assert(q[1] == hex_byte((x % 16) as nat));
        assert(hex_decode(q.skip(2)) =~= seq![]);
        assert(hex_decode(q) =~= seq![x]);
        assert(v.drop_last().push(x) =~= v);
    }
}

/// Bytes are written `#` and two lowercase hex digits each; a non-empty
/// byte string reads back as itself. (An empty one is written `#`, which
/// the lexer refuses.)
pub proof fn law_bytes_round_trip(d: Dialect, v: Seq<u8>)
    requires
        v.len() > 0,
    ensures
        reads_back(d, seq!['#'] + hex_text(v), |t: TokenModel| bytes_of(t), v),
{
    lemma_hex_text(v);
    let t = seq!['#'] + hex_text(v);
    assert forall|i: int| 0 <= i < t.len() implies '\0' <= #[trigger] t[i] <= '\u{7f}' by {
        if i > 0 {
            assert(t[i] == hex_text(v)[i - 1]);
        }
    }
    lemma_ascii_encode(t);
    let s = encode_utf8(t);
    let n = s.len() as int;
    assert forall|i: int| 1 <= i < n implies (lower_hex_fn())(#[trigger] s[i]) by {
        assert(s[i] as u32 == t[i] as u32);
        assert(t[i] == hex_text(v)[i - 1]);
    }
    lemma_span_to_end(s, 1, lower_hex_fn());
    let h = s.subrange(1, n);
    assert forall|i: int| 0 <= i < h.len() implies (#[trigger] h[i]) as u32 == hex_text(v)[i] as u32 by {
        assert(h[i] == s[i + 1]);
        assert(s[i + 1] as u32 == t[i + 1] as u32);
    }
    lemma_hex_decode_text(v, h);
    assert(s[0] as u32 == t[0] as u32);
    assert(s[0] == 0x23);
    assert(skip_trivia(s, 0) == 0);
    assert(skip_trivia(s, n) == n);
    assert(lex_at(d, s, 0, false) == crate::lexer::lex_bytes(s, 1));
}

// ---------- records read back token by token ----------

/// A value whose written text the lexer reads back: what the writer
/// writes for it is `written_text`, and the tokens the lexer finds there
/// are `read_tokens`.
pub enum Readable {
    /// An identifier-shaped word: `true`, `false`, a bare string, `None`,
    /// or the name of a unit struct or unit variant.
    Word(Seq<char>),
    /// An integer.
    Int(int),
    /// A non-empty byte string, written `#hex`.
    Bytes(Seq<u8>),
    /// `(Name f1 f2 …)`: a struct, struct variant, newtype struct or
    /// newtype variant and its fields.
    Record(Seq<char>, Seq<Readable>),
    /// Nexus: a prefix wrapper (mutate `~`, negate `!`, validate `?`,
    /// subscribe `*`) and the value it wraps.
    Prefixed(Sentinel, Box<Readable>),
    /// Nexus: a bind `@name`.
    Bind(Seq<char>),
    /// Nexus: an atomic batch `[| a b |]` and its items.
    Batch(Seq<Readable>),
    /// A string that does not go bare: bracketed in nota, quoted (with
    /// `\\`, `"` and newlines escaped) in nexus.
    Str(Seq<char>),
    /// A sequence `<a b …>` (`[a b …]` in nexus). A map is a sequence of entries in key order
    /// (see `map_text`).
    List(Seq<Readable>),
    /// A map entry `(k v)`.
    Entry(Box<Readable>, Box<Readable>),
}

/// The body written between `[|` and `|]` for a string in nota: the text
/// on lines of its own.
pub open spec fn multiline_body(v: Seq<char>) -> Seq<char> {
    seq!['\n'] + v + (if v.len() > 0 && v.last() == '\n' {
        seq![]
    } else {
        seq!['\n']
    })
}

/// In nota, the bracketed form of `v` reads back as `v`: a `[…]` text does
/// not start with `|` (which would open `[| |]`), and a `[| |]` body is
/// one that the dedent of multiline strings leaves as `v`.
pub open spec fn bracket_reads_back(v: Seq<char>) -> bool {
    if v.contains(']') || v.contains('\n') {
        dedent_bytes(encode_utf8(multiline_body(v))) == encode_utf8(v)
    } else {
        v.len() == 0 || v[0] != '|'
    }
}

/// The values the writer writes so that they read back in dialect `d`:
/// words are identifier-shaped, integers fit `i128` or `u128`, byte
/// strings are not empty, strings that cannot go bare hold no `|]` (and
/// in nota their bracketed form reads back), record names are
/// identifier-shaped, bind names are bind names, and the nexus forms only
/// occur in nexus.
pub open spec fn readable(d: Dialect, w: Readable) -> bool
    decreases w,
{
    match w {
        Readable::Word(v) => word_shaped(v),
        Readable::Int(i) => i128::MIN <= i <= u128::MAX,
        Readable::Bytes(b) => b.len() > 0,
        Readable::Record(n, fs) => word_shaped(n) && forall|k: int|
            0 <= k < fs.len() ==> readable(d, #[trigger] fs[k]),
        Readable::Prefixed(sg, x) => d == Dialect::Nexus && (sg is Mutate || sg is Negate
            || sg is Validate || sg is Subscribe) && readable(d, *x),
        Readable::Bind(v) => d == Dialect::Nexus && bind_name(v),
        Readable::Batch(items) => d == Dialect::Nexus && forall|k: int|
            0 <= k < items.len() ==> readable(d, #[trigger] items[k]),
        Readable::Str(v) => !bare_string_eligible(v) && !has_multiline_closer(v) && (d
            == Dialect::Nota ==> bracket_reads_back(v)),
        Readable::List(items) => forall|k: int|
            0 <= k < items.len() ==> readable(d, #[trigger] items[k]),
        Readable::Entry(k, v) => readable(d, *k) && readable(d, *v),
    }
}

/// The text the writer writes for a value.
pub open spec fn written_text(d: Dialect, w: Readable) -> Seq<char>
    decreases w,
{
    match w {
        Readable::Word(v) => v,
        Readable::Int(i) => int_text(i),
        Readable::Bytes(b) => seq!['#'] + hex_text(b),
        Readable::Record(n, fs) => seq!['('] + n + fields_text(d, fs) + seq![')'],
        Readable::Prefixed(sg, x) => seq![sigil_of(sg)] + written_text(d, *x),
        Readable::Bind(v) => seq!['@'] + v,
        Readable::Batch(items) => if items.len() == 0 {
            seq!['[', '|', '|', ']']
        } else {
            seq!['[', '|'] + fields_text(d, items) + seq![' ', '|', ']']
        },
        Readable::Str(v) => str_literal_text(d, v),
        Readable::List(items) => if items.len() == 0 {
            seq![seq_open_char(d), seq_close_char(d)]
        } else {
            seq![seq_open_char(d)] + written_text(d, items[0]) + fields_text(
                d,
                items.subrange(1, items.len() as int),
            ) + seq![seq_close_char(d)]
        },
        Readable::Entry(k, v) => seq!['('] + written_text(d, *k) + seq![' '] + written_text(d, *v) + seq![
            ')',
        ],
    }
}

/// Each field after a space.
pub open spec fn fields_text(d: Dialect, fs: Seq<Readable>) -> Seq<char>
    decreases fs,
{
    if fs.len() == 0 {
        seq![]
    } else {
        seq![' '] + written_text(d, fs[0]) + fields_text(d, fs.subrange(1, fs.len() as int))
    }
}

/// The tokens the lexer finds in the written text of a value.
pub open spec fn read_tokens(d: Dialect, w: Readable) -> Seq<TokenModel>
    decreases w,
{
    match w {
        Readable::Word(v) => seq![word_token(v)],
        Readable::Int(i) => seq![int_token(i)],
        Readable::Bytes(b) => seq![TokenModel::Bytes(b)],
        Readable::Record(n, fs) => seq![TokenModel::LParen, word_token(n)] + fields_tokens(d, fs)
            + seq![TokenModel::RParen],
        Readable::Prefixed(sg, x) => seq![sigil_token(sg)] + read_tokens(d, *x),
        Readable::Bind(v) => seq![TokenModel::At, TokenModel::Ident(v)],
        Readable::Batch(items) => seq![TokenModel::LBracketPipe] + fields_tokens(d, items) + seq![
            TokenModel::RBracketPipe,
        ],
        Readable::Str(v) => seq![TokenModel::Str(v)],
        Readable::List(items) => seq![seq_open_token(d)] + fields_tokens(d, items) + seq![
            seq_close_token(d),
        ],
        Readable::Entry(k, v) => seq![TokenModel::LParen] + read_tokens(d, *k) + read_tokens(d, *v) + seq![
            TokenModel::RParen,
        ],
    }
}

pub open spec fn fields_tokens(d: Dialect, fs: Seq<Readable>) -> Seq<TokenModel>
    decreases fs,
{
    if fs.len() == 0 {
        seq![]
    } else {
        read_tokens(d, fs[0]) + fields_tokens(d, fs.subrange(1, fs.len() as int))
    }
}

/// Lexing `s` from `p` in state `st` yields exactly the tokens `toks`,
/// one after the other, and then the end of the input.
pub open spec fn lexes_as(
    d: Dialect,
    s: Seq<u8>,
    p: int,
    st: AliasState,
    toks: Seq<TokenModel>,
) -> bool
    decreases toks.len(),
{
    let (r, e) = next_in_state(d, s, p, st);
    if toks.len() == 0 {
        r == Ok::<Option<TokenModel>, LexError>(None)
    } else {
        r == Ok::<Option<TokenModel>, LexError>(Some(toks[0])) && lexes_as(
            d,
            s,
            e,
            alias_after(st, r),
            toks.drop_first(),
        )
    }
}

/// `s` holds the bytes of the ASCII text `t` from `p` on.
spec fn ascii_window(s: Seq<u8>, p: int, t: Seq<char>) -> bool {
    &&& 0 <= p
    &&& p + t.len() <= s.len()
    &&& vstd::utf8::is_ascii_chars(t)
    &&& s.subrange(p, p + t.len()) == encode_utf8(t)
}

proof fn lemma_ascii_window_at(s: Seq<u8>, p: int, t: Seq<char>)
    requires
        ascii_window(s, p, t),
    ensures
        forall|i: int| 0 <= i < t.len() ==> (#[trigger] s[p + i]) as u32 == t[i] as u32,
        forall|i: int| 0 <= i < t.len() ==> #[trigger] s[p + i] == t[i] as u8,
{
    lemma_ascii_encode(t);
    assert forall|i: int| 0 <= i < t.len() implies (#[trigger] s[p + i]) as u32 == t[i] as u32 by {
        assert(s[p + i] == s.subrange(p, p + t.len())[i]);
    }
    assert forall|i: int| 0 <= i < t.len() implies #[trigger] s[p + i] == t[i] as u8 by {
        assert(s[p + i] == s.subrange(p, p + t.len())[i]);
    }
}

proof fn lemma_span_stops(s: Seq<u8>, p: int, e: int, f: spec_fn(u8) -> bool)
    requires
        0 <= p <= e <= s.len(),
        forall|i: int| p <= i < e ==> f(#[trigger] s[i]),
        e == s.len() || !f(s[e]),
    ensures
        span_end(s, p, f) == e,
    decreases e - p,
{
    if p < e {
        lemma_span_stops(s, p + 1, e, f);
    }
}

/// A byte that ends a token of the written text: a space, `)`, `]` or
/// `>`.
spec fn ends_token(s: Seq<u8>, q: int) -> bool {
    q == s.len() || (0 <= q < s.len() && (s[q] == 0x20 || s[q] == 0x29 || s[q] == 0x5D || s[q]
        == 0x3E))
}

/// An identifier-shaped word lexes as its token, wherever it stands.
proof fn lemma_word_token_at(d: Dialect, s: Seq<u8>, p: int, v: Seq<char>, a: bool)
    requires
        word_shaped(v),
        ascii_window(s, p, v),
        ends_token(s, p + v.len()),
    ensures
        spec_next_token(d, s, p, a) == (
            Ok::<Option<TokenModel>, LexError>(Some(word_token(v))),
            p + v.len(),
        ),
{
    lemma_ascii_window_at(s, p, v);
    lemma_ascii_encode(v);
    let n = p + v.len();
    assert forall|i: int| p <= i < n implies (ident_continue_fn())(#[trigger] s[i]) by {
        assert(s[p + (i - p)] as u32 == v[i - p] as u32);
        if i > p {
            assert(is_ident_continue_char(v[i - p]));
        }
    }
    lemma_span_stops(s, p, n, ident_continue_fn());
    assert(s[p + 0] as u32 == v[0] as u32);
    assert(crate::text::spec_ident_start(s[p]));
    assert(skip_trivia(s, p) == p);
    let t = s.subrange(p, n);
    assert(t == encode_utf8(v));
    if crate::lexer::is_true_text(t) {
        assert(ascii_text(t) =~= seq!['t', 'r', 'u', 'e']);
    } else if v == seq!['t', 'r', 'u', 'e'] {
        assert(t =~= seq![0x74u8, 0x72u8, 0x75u8, 0x65u8]);
    }
    if crate::lexer::is_false_text(t) {
        assert(ascii_text(t) =~= seq!['f', 'a', 'l', 's', 'e']);
    } else if v == seq!['f', 'a', 'l', 's', 'e'] {
        assert(t =~= seq![0x66u8, 0x61u8, 0x6Cu8, 0x73u8, 0x65u8]);
    }
    assert(lex_at(d, s, p, a) == crate::lexer::lex_ident(s, p));
}

proof fn lemma_decimal_scan_stop(s: Seq<u8>, p: int, e: int)
    requires
        0 <= p <= e <= s.len(),
        forall|i: int| p <= i < e ==> is_digit(#[trigger] s[i]),
        ends_token(s, e),
    ensures
        decimal_scan(s, p, false, false) == (e, false, false),
    decreases e - p,
{
    if p < e {
        lemma_decimal_scan_stop(s, p + 1, e);
    }
}

/// The decimal text of an integer is the literal of that integer.
proof fn lemma_int_literal_text(v: int)
    requires
        i128::MIN <= v <= u128::MAX,
    ensures
        int_literal(encode_utf8(int_text(v)), 10) == Ok::<TokenModel, crate::error::IntErrorKind>(
            int_token(v),
        ),
{
    lemma_int_bytes(v);
    let c = encode_utf8(int_text(v));
    if v < 0 {
        assert(c.drop_first() =~= c.skip(1));
    } else {
        assert(c.skip(0) =~= c);
        assert(is_digit(c[0]));
    }
}

proof fn lemma_lex_number_at(s: Seq<u8>, p: int, c: Seq<u8>, v: int)
    requires
        0 <= p,
        p + c.len() <= s.len(),
        s.subrange(p, p + c.len()) == c,
        ends_token(s, p + c.len()),
        ({
            let k: int = if v < 0 {
                1
            } else {
                0
            };
            &&& c.len() > k
            &&& (v < 0 ==> c[0] == 0x2D)
            &&& forall|i: int| k <= i < c.len() ==> is_digit(#[trigger] c[i])
            &&& forall|i: int| 0 <= i < c.len() ==> #[trigger] c[i] != 0x5F
        }),
        int_literal(c, 10) == Ok::<TokenModel, crate::error::IntErrorKind>(int_token(v)),
    ensures
        crate::lexer::lex_number(s, p) == (
            Ok::<TokenModel, LexError>(int_token(v)),
            p + c.len(),
        ),
{
    let e = p + c.len();
    let k: int = if v < 0 {
        1
    } else {
        0
    };
    assert forall|i: int| 0 <= i < c.len() implies #[trigger] s[p + i] == c[i] by {
        assert(s.subrange(p, e)[i] == c[i]);
    }
    let q = p + k;
    assert forall|i: int| q <= i < e implies is_digit(#[trigger] s[i]) by {
        assert(s[p + (i - p)] == c[i - p]);
    }
    lemma_decimal_scan_stop(s, q, e);
    assert(s[p + k] == c[k]);
    if q + 1 < e {
        assert(s[p + (k + 1)] == c[k + 1]);
    }
    lemma_no_underscores(c);
    assert(s[p + 0] == c[0]);
}

/// The decimal text of an integer lexes as that integer, wherever it stands.
proof fn lemma_int_token_at(d: Dialect, s: Seq<u8>, p: int, v: int, a: bool)
    requires
        i128::MIN <= v <= u128::MAX,
        ascii_window(s, p, int_text(v)),
        ends_token(s, p + int_text(v).len()),
    ensures
        spec_next_token(d, s, p, a) == (
            Ok::<Option<TokenModel>, LexError>(Some(int_token(v))),
            p + int_text(v).len(),
        ),
{
    lemma_int_bytes(v);
    lemma_ascii_encode(int_text(v));
    lemma_int_literal_text(v);
    let c = encode_utf8(int_text(v));
    lemma_lex_number_at(s, p, c, v);
    assert(s[p] == c[0]) by {
        assert(s.subrange(p, p + c.len())[0] == c[0]);
    }
    if v >= 0 {
        assert(is_digit(c[0]));
    }
    assert(skip_trivia(s, p) == p);
    assert(lex_at(d, s, p, a) == crate::lexer::lex_number(s, p));
}

/// The text of a non-empty byte string lexes as that byte string,
/// wherever it stands.
proof fn lemma_bytes_token_at(d: Dialect, s: Seq<u8>, p: int, v: Seq<u8>, a: bool)
    requires
        v.len() > 0,
        ascii_window(s, p, seq!['#'] + hex_text(v)),
        ends_token(s, p + 1 + hex_text(v).len()),
    ensures
        spec_next_token(d, s, p, a) == (
            Ok::<Option<TokenModel>, LexError>(Some(TokenModel::Bytes(v))),
            p + 1 + hex_text(v).len(),
        ),
{
    lemma_hex_text(v);
    let t = seq!['#'] + hex_text(v);
    lemma_ascii_window_at(s, p, t);
    let e = p + t.len();
    assert forall|i: int| p + 1 <= i < e implies (lower_hex_fn())(#[trigger] s[i]) by {
        assert(s[p + (i - p)] as u32 == t[i - p] as u32);
        assert(t[i - p] == hex_text(v)[i - p - 1]);
    }
    lemma_span_stops(s, p + 1, e, lower_hex_fn());
    let h = s.subrange(p + 1, e);
    assert forall|i: int| 0 <= i < h.len() implies (#[trigger] h[i]) as u32 == hex_text(v)[i] as u32 by {
        assert(h[i] == s[p + (i + 1)]);
        assert(t[i + 1] == hex_text(v)[i]);
    }
    lemma_hex_decode_text(v, h);
    assert(s[p + 0] as u32 == t[0] as u32);
    assert(s[p] == 0x23);
    assert(skip_trivia(s, p) == p);
    assert(lex_at(d, s, p, a) == crate::lexer::lex_bytes(s, p + 1));
}

proof fn lemma_span_end_ge(s: Seq<u8>, p: int, f: spec_fn(u8) -> bool)
    ensures
        span_end(s, p, f) >= p,
    decreases s.len() - p,
{
    if 0 <= p < s.len() && f(s[p]) {
        lemma_span_end_ge(s, p + 1, f);
    }
}

proof fn lemma_decimal_scan_ge(s: Seq<u8>, p: int, dot: bool, exp: bool)
    ensures
        decimal_scan(s, p, dot, exp).0 >= p,
    decreases s.len() - p,
{
    if 0 <= p < s.len() {
        let b = s[p];
        if is_digit(b) || b == 0x5F {
            lemma_decimal_scan_ge(s, p + 1, dot, exp);
        } else if b == 0x2E && !dot && !exp {
            lemma_decimal_scan_ge(s, p + 1, true, exp);
        } else if (b == 0x65 || b == 0x45) && !exp {
            if p + 1 < s.len() && (s[p + 1] == 0x2B || s[p + 1] == 0x2D) {
                lemma_decimal_scan_ge(s, p + 2, dot, true);
            } else {
                lemma_decimal_scan_ge(s, p + 1, dot, true);
            }
        }
    }
}

proof fn lemma_inline_scan_ge(s: Seq<u8>, q: int, acc: Seq<u8>)
    ensures
        crate::lexer::inline_scan(s, q, acc).1 >= q,
    decreases s.len() - q,
{
    if 0 <= q < s.len() {
        let b = s[q];
        if b != 0x22 && b != 0x0A {
            if b == 0x5C {
                if q + 1 < s.len() {
                    match crate::lexer::escape_byte(s[q + 1]) {
                        Some(t) => lemma_inline_scan_ge(s, q + 2, acc.push(t)),
                        None => {},
                    }
                }
            } else {
                let w = crate::text::spec_utf8_char_len(b);
                if w > 1 {
                    if q + w <= s.len() {
                        lemma_inline_scan_ge(s, q + w, acc + s.subrange(q, q + w));
                    }
                } else {
                    lemma_inline_scan_ge(s, q + 1, acc + crate::lexer::latin1_bytes(b));
                }
            }
        }
    }
}

proof fn lemma_find_triple_quote_ge(s: Seq<u8>, q: int)
    ensures
        crate::lexer::find_triple_quote(s, q) == -1 || crate::lexer::find_triple_quote(s, q) >= q,
    decreases s.len() - q,
{
    if 0 <= q < s.len() && !crate::lexer::triple_quote_at(s, q) {
        lemma_find_triple_quote_ge(s, q + 1);
    }
}

proof fn lemma_find_close_ge(s: Seq<u8>, q: int)
    ensures
        crate::lexer::find_close_bracket(s, q) == -1 || crate::lexer::find_close_bracket(s, q) >= q,
    decreases s.len() - q,
{
    if 0 <= q < s.len() && s[q] != 0x5D {
        lemma_find_close_ge(s, q + 1);
    }
}

proof fn lemma_find_pipe_ge(s: Seq<u8>, q: int)
    ensures
        crate::lexer::find_pipe_bracket(s, q) == -1 || crate::lexer::find_pipe_bracket(s, q) >= q,
    decreases s.len() - q,
{
    if 0 <= q < s.len() && !crate::lexer::pipe_bracket_at(s, q) {
        lemma_find_pipe_ge(s, q + 1);
    }
}

/// Reading a token never moves the lexer back.
proof fn lemma_next_end_ge(d: Dialect, s: Seq<u8>, p: int, a: bool)
    requires
        0 <= p,
    ensures
        spec_next_token(d, s, p, a).1 >= p,
{
    let q = skip_trivia(s, p);
    lemma_skip_trivia_bounds(s, p);
    if q < s.len() {
        let b = s[q];
        if b == 0x22 {
            if q + 2 < s.len() && s[q + 1] == 0x22 && s[q + 2] == 0x22 {
                lemma_find_triple_quote_ge(s, q + 3);
            } else {
                lemma_inline_scan_ge(s, q + 1, seq![]);
            }
        } else if b == 0x5B && d == Dialect::Nota {
            lemma_find_close_ge(s, q + 1);
            lemma_find_pipe_ge(s, q + 2);
        } else if b == 0x23 {
            lemma_span_end_ge(s, q + 1, lower_hex_fn());
        } else if b == 0x2D || is_digit(b) {
            let k = if b == 0x2D {
                q + 1
            } else {
                q
            };
            if k + 1 < s.len() && s[k] == 0x30 && crate::lexer::radix_of(s[k + 1]) != 0 {
                lemma_span_end_ge(s, k + 2, crate::lexer::radix_run_fn(crate::lexer::radix_of(s[k + 1])));
            } else {
                lemma_decimal_scan_ge(s, k, false, false);
            }
        } else if crate::text::spec_ident_start(b) {
            lemma_span_end_ge(s, q, ident_continue_fn());
        }
    }
}

/// A text made of ASCII characters other than `=`.
spec fn plain_text(t: Seq<char>) -> bool {
    forall|i: int| 0 <= i < t.len() ==> '\0' <= #[trigger] t[i] <= '\u{7f}' && t[i] != '='
}

proof fn lemma_word_plain(v: Seq<char>)
    requires
        word_shaped(v),
    ensures
        plain_text(v),
{
    assert forall|i: int| 0 <= i < v.len() implies '\0' <= #[trigger] v[i] <= '\u{7f}' && v[i]
        != '=' by {
        if i > 0 {
            assert(is_ident_continue_char(v[i]));
        }
    }
}

/// The next token does not start with `=`, the one byte whose reading
/// depends on what the lexer remembers of earlier tokens.
spec fn starts_without_equals(s: Seq<u8>, p: int) -> bool {
    skip_trivia(s, p) < s.len() ==> s[skip_trivia(s, p)] != 0x3D
}

/// Where the next token does not start with `=`, what the lexer
/// remembers changes nothing.
proof fn lemma_state_irrelevant(d: Dialect, s: Seq<u8>, p: int, st: AliasState)
    requires
        0 <= p,
        starts_without_equals(s, p),
    ensures
        next_in_state(d, s, p, st) == next_in_state(d, s, p, AliasState::Other),
{
    let q = skip_trivia(s, p);
    lemma_skip_trivia_bounds(s, p);
    if q < s.len() {
        assert(lex_at(d, s, q, st == AliasState::AfterBindName) == lex_at(d, s, q, false));
    }
}

/// Lexing `s` from `p` yields `toks` and then the end of the input,
/// whatever the lexer remembers of earlier tokens.
spec fn lexes_all(d: Dialect, s: Seq<u8>, p: int, toks: Seq<TokenModel>) -> bool {
    forall|st: AliasState| #[trigger] lexes_as(d, s, p, st, toks)
}

proof fn lemma_lexes_end(d: Dialect, s: Seq<u8>)
    ensures
        lexes_all(d, s, s.len() as int, Seq::<TokenModel>::empty()),
{
    assert(skip_trivia(s, s.len() as int) == s.len());
    assert forall|st: AliasState| #[trigger] lexes_as(
        d,
        s,
        s.len() as int,
        st,
        Seq::<TokenModel>::empty(),
    ) by {}
}

proof fn lemma_lexes_cons(
    d: Dialect,
    s: Seq<u8>,
    p: int,
    t: TokenModel,
    e: int,
    rest: Seq<TokenModel>,
)
    requires
        0 <= p,
        starts_without_equals(s, p),
        next_in_state(d, s, p, AliasState::Other) == (
            Ok::<Option<TokenModel>, LexError>(Some(t)),
            e,
        ),
        lexes_all(d, s, e, rest),
    ensures
        lexes_all(d, s, p, seq![t] + rest),
{
    let toks = seq![t] + rest;
    assert(toks[0] == t);
    assert(toks.drop_first() =~= rest);
    assert forall|st: AliasState| #[trigger] lexes_as(d, s, p, st, toks) by {
        lemma_state_irrelevant(d, s, p, st);
        assert(lexes_as(
            d,
            s,
            e,
            alias_after(st, Ok::<Option<TokenModel>, LexError>(Some(t))),
            rest,
        ));
    }
}

proof fn lemma_lexes_skip_space(d: Dialect, s: Seq<u8>, p: int, toks: Seq<TokenModel>)
    requires
        0 <= p < s.len(),
        s[p] == 0x20,
        lexes_all(d, s, p + 1, toks),
    ensures
        lexes_all(d, s, p, toks),
{
    assert(skip_trivia(s, p) == skip_trivia(s, p + 1));
    assert forall|st: AliasState| #[trigger] lexes_as(d, s, p, st, toks) by {
        assert(next_in_state(d, s, p, st) == next_in_state(d, s, p + 1, st));
        assert(lexes_as(d, s, p + 1, st, toks));
    }
}

/// Length in bytes of the UTF-8 encoding of `t`.
spec fn blen(t: Seq<char>) -> int {
    encode_utf8(t).len() as int
}

/// `s` holds the UTF-8 bytes of the text `t` from `p` on.
spec fn window(s: Seq<u8>, p: int, t: Seq<char>) -> bool {
    &&& 0 <= p
    &&& p + blen(t) <= s.len()
    &&& s.subrange(p, p + blen(t)) == encode_utf8(t)
}

proof fn lemma_window_split(s: Seq<u8>, p: int, a: Seq<char>, b: Seq<char>)
    requires
        window(s, p, a + b),
    ensures
        window(s, p, a),
        window(s, p + blen(a), b),
        blen(a + b) == blen(a) + blen(b),
{
    crate::quoting::lemma_encode_concat(a, b);
    let ea = encode_utf8(a);
    let eb = encode_utf8(b);
    let n = ea.len() + eb.len();
    assert(s.subrange(p, p + ea.len()) =~= ea) by {
        assert forall|i: int| 0 <= i < ea.len() implies #[trigger] s.subrange(p, p + ea.len())[i]
            == ea[i] by {
            assert(s.subrange(p, p + n)[i] == (ea + eb)[i]);
        }
    }
    assert(s.subrange(p + ea.len(), p + n) =~= eb) by {
        assert forall|i: int| 0 <= i < eb.len() implies #[trigger] s.subrange(
            p + ea.len(),
            p + n,
        )[i] == eb[i] by {
            assert(s.subrange(p, p + n)[ea.len() + i] == (ea + eb)[ea.len() + i]);
        }
    }
}

/// Over ASCII text, byte positions are character positions.
proof fn lemma_window_ascii(s: Seq<u8>, p: int, t: Seq<char>)
    requires
        window(s, p, t),
        vstd::utf8::is_ascii_chars(t),
    ensures
        ascii_window(s, p, t),
        blen(t) == t.len(),
{
    lemma_ascii_encode(t);
}

proof fn lemma_plain_ascii(t: Seq<char>)
    requires
        plain_text(t),
    ensures
        vstd::utf8::is_ascii_chars(t),
{
    assert forall|i: int| 0 <= i < t.len() implies '\0' <= #[trigger] t[i] <= '\u{7f}' by {}
}

/// A character a token starts with: printable ASCII other than `|`, `=`
/// and `;`.
spec fn token_start_char(c: char) -> bool {
    &&& 0x21 <= (c as u32) < 0x7F
    &&& (c as u32) != 0x7C
    &&& (c as u32) != 0x3D
    &&& (c as u32) != 0x3B
}

/// The first byte of a window whose text starts with an ASCII character
/// is that character; a token starts there.
proof fn lemma_window_first(s: Seq<u8>, p: int, t: Seq<char>)
    requires
        window(s, p, t),
        t.len() > 0,
        token_start_char(t[0]),
    ensures
        blen(t) > 0,
        s[p] as u32 == t[0] as u32,
        s[p] != 0x7C,
        skip_trivia(s, p) == p,
        starts_without_equals(s, p),
{
    let c = t[0];
    let w = t.drop_first();
    assert(t =~= seq![c] + w);
    crate::quoting::lemma_encode_concat(seq![c], w);
    crate::quoting::lemma_encode_one(c);
    assert(encode_utf8(t)[0] == encode_utf8(seq![c])[0]);
    assert(s[p] == s.subrange(p, p + blen(t))[0]);
}

/// The written text of a value is never empty and starts with a
/// character a token starts with (so never with `|`, `=` or a space).
proof fn lemma_first_char(d: Dialect, w: Readable)
    requires
        readable(d, w),
    ensures
        written_text(d, w).len() > 0,
        token_start_char(written_text(d, w)[0]),
{
    match w {
        Readable::Int(i) => {
            let m: nat = if i < 0 {
                (0 - i) as nat
            } else {
                i as nat
            };
            lemma_decimal_digits(m);
            if i >= 0 {
                assert(written_text(d, w)[0] == decimal_digits(m)[0]);
            }
        },
        Readable::Str(v) => {
            if d == Dialect::Nota {
                if v.contains(']') || v.contains('\n') {
                    assert(written_text(d, w)[0] == '[');
                } else {
                    assert(written_text(d, w) == seq!['['] + v + seq![']']);
                }
            } else {
                assert(written_text(d, w) == seq!['"'] + escape_text(v) + seq!['"']);
            }
        },
        Readable::Prefixed(sg, x) => {},
        _ => {},
    }
}

/// The text of a word, an integer or a byte string is ASCII without `=`.
proof fn lemma_atom_plain(d: Dialect, w: Readable)
    requires
        readable(d, w),
        w is Word || w is Int || w is Bytes,
    ensures
        plain_text(written_text(d, w)),
{
    let t = written_text(d, w);
    match w {
        Readable::Word(v) => {
            lemma_word_plain(v);
        },
        Readable::Int(i) => {
            let m: nat = if i < 0 {
                (0 - i) as nat
            } else {
                i as nat
            };
            lemma_decimal_digits(m);
            assert forall|j: int| 0 <= j < t.len() implies '\0' <= #[trigger] t[j] <= '\u{7f}'
                && t[j] != '=' by {
                if i < 0 && j > 0 {
                    assert(t[j] == decimal_digits(m)[j - 1]);
                } else if i >= 0 {
                    assert(t[j] == decimal_digits(m)[j]);
                }
            }
        },
        Readable::Bytes(b) => {
            lemma_hex_text(b);
            assert forall|j: int| 0 <= j < t.len() implies '\0' <= #[trigger] t[j] <= '\u{7f}'
                && t[j] != '=' by {
                if j > 0 {
                    assert(t[j] == hex_text(b)[j - 1]);
                }
            }
        },
        _ => {},
    }
}

/// The written text of a value, found in `s` from `p` and ended there by
/// a space, `)`, `]` or the end of the input, lexes as the value's tokens.
proof fn lemma_value_lexes(d: Dialect, s: Seq<u8>, p: int, w: Readable, rest: Seq<TokenModel>)
    requires
        readable(d, w),
        window(s, p, written_text(d, w)),
        ends_token(s, p + blen(written_text(d, w))),
        lexes_all(d, s, p + blen(written_text(d, w)), rest),
    ensures
        lexes_all(d, s, p, read_tokens(d, w) + rest),
    decreases w, 2int,
{
    let t = written_text(d, w);
    match w {
        Readable::Record(n, fs) => lemma_record_lexes(d, s, p, w, n, fs, rest),
        Readable::Prefixed(sg, x) => lemma_prefixed_lexes(d, s, p, w, sg, *x, rest),
        Readable::Bind(v) => lemma_bind_lexes(d, s, p, w, v, rest),
        Readable::Batch(items) => lemma_batch_lexes(d, s, p, w, items, rest),
        Readable::Str(v) => lemma_str_lexes(d, s, p, w, v, rest),
        Readable::List(items) => lemma_seq_lexes(d, s, p, w, items, rest),
        Readable::Entry(k, v) => lemma_entry_lexes(d, s, p, w, *k, *v, rest),
        _ => {
            lemma_atom_plain(d, w);
            lemma_plain_ascii(t);
            lemma_window_ascii(s, p, t);
            lemma_first_char(d, w);
            lemma_window_first(s, p, t);
            let e = p + t.len();
            match w {
                Readable::Word(v) => {
                    lemma_word_token_at(d, s, p, v, false);
                    lemma_lexes_cons(d, s, p, word_token(v), e, rest);
                },
                Readable::Int(i) => {
                    lemma_int_token_at(d, s, p, i, false);
                    lemma_lexes_cons(d, s, p, int_token(i), e, rest);
                },
                Readable::Bytes(b) => {
                    lemma_bytes_token_at(d, s, p, b, false);
                    lemma_lexes_cons(d, s, p, TokenModel::Bytes(b), e, rest);
                },
                _ => {},
            }
        },
    }
}

/// A one-character ASCII window.
proof fn lemma_char_at(s: Seq<u8>, p: int, c: char)
    requires
        window(s, p, seq![c]),
        (c as u32) < 0x80,
    ensures
        blen(seq![c]) == 1,
        s[p] as u32 == c as u32,
{
    crate::quoting::lemma_encode_one(c);
    assert(s[p] == s.subrange(p, p + 1)[0]);
}

/// A record: `(`, the name, the fields, `)`.
#[verifier::spinoff_prover]
#[verifier::rlimit(40)]
proof fn lemma_record_lexes(d: Dialect, s: Seq<u8>, p: int, w: Readable, n: Seq<char>, fs: Seq<Readable>, rest: Seq<TokenModel>)
    requires
        w == Readable::Record(n, fs),
        readable(d, w),
        window(s, p, written_text(d, w)),
        ends_token(s, p + blen(written_text(d, w))),
        lexes_all(d, s, p + blen(written_text(d, w)), rest),
    ensures
        lexes_all(d, s, p, read_tokens(d, w) + rest),
    decreases fs, 1int,
{
    let t = written_text(d, w);
    let e = p + blen(t);
    let f = fields_text(d, fs);
    let open = seq!['('] + n;
    assert(t == open + f + seq![')']);
    lemma_window_split(s, p, open + f, seq![')']);
    lemma_window_split(s, p, open, f);
    lemma_window_split(s, p, seq!['('], n);
    lemma_char_at(s, p, '(');
    lemma_word_plain(n);
    lemma_plain_ascii(n);
    let pn = p + 1;
    lemma_window_ascii(s, pn, n);
    let pf = pn + n.len();
    let pc = pf + blen(f);
    lemma_char_at(s, pc, ')');
    assert(pc + 1 == e);
    // `)` then the rest.
    assert(skip_trivia(s, pc) == pc);
    assert(next_in_state(d, s, pc, AliasState::Other) == (
        Ok::<Option<TokenModel>, LexError>(Some(TokenModel::RParen)),
        e,
    ));
    lemma_lexes_cons(d, s, pc, TokenModel::RParen, e, rest);
    // The fields.
    lemma_fields_lex(d, s, pf, fs, seq![TokenModel::RParen] + rest);
    // The name, ended by the first field's space or by `)`.
    if f.len() > 0 {
        assert(f[0] == ' ');
        lemma_window_prefix_space(s, pf, f);
    } else {
        assert(f =~= Seq::<char>::empty());
        assert(blen(f) == 0);
    }
    assert(ends_token(s, pf));
    lemma_word_token_at(d, s, pn, n, false);
    lemma_window_first(s, pn, n);
    let after_name = fields_tokens(d, fs) + (seq![TokenModel::RParen] + rest);
    lemma_lexes_cons(d, s, pn, word_token(n), pf, after_name);
    // `(`, not followed by `|`.
    assert(skip_trivia(s, p) == p);
    assert(next_in_state(d, s, p, AliasState::Other) == (
        Ok::<Option<TokenModel>, LexError>(Some(TokenModel::LParen)),
        pn,
    ));
    lemma_lexes_cons(d, s, p, TokenModel::LParen, pn, seq![word_token(n)] + after_name);
    assert(read_tokens(d, w) + rest =~= seq![TokenModel::LParen] + (seq![word_token(n)]
        + after_name));
}

/// A window whose text starts with a space holds a space there.
proof fn lemma_window_prefix_space(s: Seq<u8>, p: int, f: Seq<char>)
    requires
        window(s, p, f),
        f.len() > 0,
        f[0] == ' ',
    ensures
        blen(f) > 0,
        s[p] == 0x20,
{
    let w = f.drop_first();
    assert(f =~= seq![' '] + w);
    crate::quoting::lemma_encode_concat(seq![' '], w);
    crate::quoting::lemma_encode_one(' ');
    assert(encode_utf8(f)[0] == encode_utf8(seq![' '])[0]);
    assert(s[p] == s.subrange(p, p + blen(f))[0]);
}

/// A prefix sigil, then the wrapped value.
proof fn lemma_prefixed_lexes(d: Dialect, s: Seq<u8>, p: int, w: Readable, sg: Sentinel, x: Readable, rest: Seq<TokenModel>)
    requires
        w == Readable::Prefixed(sg, Box::new(x)),
        readable(d, w),
        window(s, p, written_text(d, w)),
        ends_token(s, p + blen(written_text(d, w))),
        lexes_all(d, s, p + blen(written_text(d, w)), rest),
    ensures
        lexes_all(d, s, p, read_tokens(d, w) + rest),
    decreases x, 3int,
{
    let c = sigil_of(sg);
    let inner = written_text(d, x);
    lemma_window_split(s, p, seq![c], inner);
    lemma_char_at(s, p, c);
    lemma_value_lexes(d, s, p + 1, x, rest);
    lemma_first_char(d, x);
    lemma_window_first(s, p + 1, inner);
    assert(skip_trivia(s, p) == p);
    assert(s[p + 1] != 0x3D);
    assert(next_in_state(d, s, p, AliasState::Other) == (
        Ok::<Option<TokenModel>, LexError>(Some(sigil_token(sg))),
        p + 1,
    ));
    lemma_lexes_cons(d, s, p, sigil_token(sg), p + 1, read_tokens(d, x) + rest);
    assert(read_tokens(d, w) + rest =~= seq![sigil_token(sg)] + (read_tokens(d, x) + rest));
}

/// `@`, then the bind name.
proof fn lemma_bind_lexes(d: Dialect, s: Seq<u8>, p: int, w: Readable, v: Seq<char>, rest: Seq<TokenModel>)
    requires
        w == Readable::Bind(v),
        readable(d, w),
        window(s, p, written_text(d, w)),
        ends_token(s, p + blen(written_text(d, w))),
        lexes_all(d, s, p + blen(written_text(d, w)), rest),
    ensures
        lexes_all(d, s, p, read_tokens(d, w) + rest),
{
    lemma_window_split(s, p, seq!['@'], v);
    lemma_char_at(s, p, '@');
    lemma_word_plain(v);
    lemma_plain_ascii(v);
    lemma_window_ascii(s, p + 1, v);
    let e = p + 1 + v.len();
    lemma_word_token_at(d, s, p + 1, v, false);
    assert(word_token(v) == TokenModel::Ident(v));
    lemma_window_first(s, p + 1, v);
    lemma_lexes_cons(d, s, p + 1, TokenModel::Ident(v), e, rest);
    assert(skip_trivia(s, p) == p);
    assert(next_in_state(d, s, p, AliasState::Other) == (
        Ok::<Option<TokenModel>, LexError>(Some(TokenModel::At)),
        p + 1,
    ));
    lemma_lexes_cons(d, s, p, TokenModel::At, p + 1, seq![TokenModel::Ident(v)] + rest);
    assert(read_tokens(d, w) + rest =~= seq![TokenModel::At] + (seq![TokenModel::Ident(v)]
        + rest));
}

/// `[|`, the items, ` |]` (or `[||]` when there are none).
#[verifier::spinoff_prover]
#[verifier::rlimit(40)]
proof fn lemma_batch_lexes(d: Dialect, s: Seq<u8>, p: int, w: Readable, items: Seq<Readable>, rest: Seq<TokenModel>)
    requires
        w == Readable::Batch(items),
        readable(d, w),
        window(s, p, written_text(d, w)),
        ends_token(s, p + blen(written_text(d, w))),
        lexes_all(d, s, p + blen(written_text(d, w)), rest),
    ensures
        lexes_all(d, s, p, read_tokens(d, w) + rest),
    decreases items, 1int,
{
    let t = written_text(d, w);
    let e = p + blen(t);
    if items.len() == 0 {
        assert(fields_tokens(d, items) =~= seq![]);
        assert(read_tokens(d, w) =~= seq![TokenModel::LBracketPipe, TokenModel::RBracketPipe]);
        assert(vstd::utf8::is_ascii_chars(t));
        lemma_window_ascii(s, p, t);
        lemma_ascii_window_at(s, p, t);
        assert(s[p + 0] == '[' as u8 && s[p + 1] == '|' as u8);
        assert(s[p + 2] == '|' as u8 && s[p + 3] == ']' as u8);
        assert(skip_trivia(s, p + 2) == p + 2);
        assert(next_in_state(d, s, p + 2, AliasState::Other) == (
            Ok::<Option<TokenModel>, LexError>(Some(TokenModel::RBracketPipe)),
            e,
        ));
        lemma_lexes_cons(d, s, p + 2, TokenModel::RBracketPipe, e, rest);
        assert(skip_trivia(s, p) == p);
        assert(next_in_state(d, s, p, AliasState::Other) == (
            Ok::<Option<TokenModel>, LexError>(Some(TokenModel::LBracketPipe)),
            p + 2,
        ));
        lemma_lexes_cons(
            d,
            s,
            p,
            TokenModel::LBracketPipe,
            p + 2,
            seq![TokenModel::RBracketPipe] + rest,
        );
        assert(read_tokens(d, w) + rest =~= seq![TokenModel::LBracketPipe] + (seq![
            TokenModel::RBracketPipe,
        ] + rest));
    } else {
        let f = fields_text(d, items);
        let open = seq!['[', '|'];
        let close = seq![' ', '|', ']'];
        assert(t == open + f + close);
        lemma_window_split(s, p, open + f, close);
        lemma_window_split(s, p, open, f);
        assert(vstd::utf8::is_ascii_chars(open));
        assert(vstd::utf8::is_ascii_chars(close));
        lemma_window_ascii(s, p, open);
        let pf = p + 2;
        let pc = pf + blen(f);
        lemma_window_ascii(s, pc, close);
        assert(pc + 3 == e);
        lemma_ascii_window_at(s, p, open);
        lemma_ascii_window_at(s, pc, close);
        assert(s[p + 0] == '[' as u8 && s[p + 1] == '|' as u8);
        assert(s[pc + 0] == ' ' as u8 && s[pc + 1] == '|' as u8 && s[pc + 2] == ']' as u8);
        // ` |]` then the rest.
        assert(skip_trivia(s, pc + 1) == pc + 1);
        assert(next_in_state(d, s, pc + 1, AliasState::Other) == (
            Ok::<Option<TokenModel>, LexError>(Some(TokenModel::RBracketPipe)),
            e,
        ));
        lemma_lexes_cons(d, s, pc + 1, TokenModel::RBracketPipe, e, rest);
        lemma_lexes_skip_space(d, s, pc, seq![TokenModel::RBracketPipe] + rest);
        // The items.
        assert(ends_token(s, pc));
        lemma_fields_lex(d, s, pf, items, seq![TokenModel::RBracketPipe] + rest);
        // `[|`.
        assert(skip_trivia(s, p) == p);
        assert(next_in_state(d, s, p, AliasState::Other) == (
            Ok::<Option<TokenModel>, LexError>(Some(TokenModel::LBracketPipe)),
            pf,
        ));
        let after = fields_tokens(d, items) + (seq![TokenModel::RBracketPipe] + rest);
        lemma_lexes_cons(d, s, p, TokenModel::LBracketPipe, pf, after);
        assert(read_tokens(d, w) + rest =~= seq![TokenModel::LBracketPipe] + after);
    }
}

/// A string that cannot go bare: one `Str` token.
proof fn lemma_str_lexes(d: Dialect, s: Seq<u8>, p: int, w: Readable, v: Seq<char>, rest: Seq<TokenModel>)
    requires
        w == Readable::Str(v),
        readable(d, w),
        window(s, p, written_text(d, w)),
        ends_token(s, p + blen(written_text(d, w))),
        lexes_all(d, s, p + blen(written_text(d, w)), rest),
    ensures
        lexes_all(d, s, p, read_tokens(d, w) + rest),
{
    if d == Dialect::Nexus {
        lemma_quoted_lexes(d, s, p, w, v, rest);
    } else if v.contains(']') || v.contains('\n') {
        lemma_bracket_multiline_lexes(d, s, p, w, v, rest);
    } else {
        lemma_bracket_inline_lexes(d, s, p, w, v, rest);
    }
}

proof fn lemma_find_close(s: Seq<u8>, q: int, r: int)
    requires
        0 <= q <= r < s.len(),
        s[r] == 0x5D,
        forall|i: int| q <= i < r ==> #[trigger] s[i] != 0x5D,
    ensures
        crate::lexer::find_close_bracket(s, q) == r,
    decreases r - q,
{
    if q < r {
        lemma_find_close(s, q + 1, r);
    }
}

proof fn lemma_find_pipe(s: Seq<u8>, q: int, r: int)
    requires
        0 <= q <= r,
        crate::lexer::pipe_bracket_at(s, r),
        forall|i: int| q <= i < r ==> !crate::lexer::pipe_bracket_at(s, i),
    ensures
        crate::lexer::find_pipe_bracket(s, q) == r,
    decreases r - q,
{
    if q < r {
        lemma_find_pipe(s, q + 1, r);
    }
}

/// Nota `[…]`: one `Str` token.
#[verifier::spinoff_prover]
#[verifier::rlimit(40)]
proof fn lemma_bracket_inline_lexes(d: Dialect, s: Seq<u8>, p: int, w: Readable, v: Seq<char>, rest: Seq<TokenModel>)
    requires
        d == Dialect::Nota,
        w == Readable::Str(v),
        !(v.contains(']') || v.contains('\n')),
        readable(d, w),
        window(s, p, written_text(d, w)),
        ends_token(s, p + blen(written_text(d, w))),
        lexes_all(d, s, p + blen(written_text(d, w)), rest),
    ensures
        lexes_all(d, s, p, read_tokens(d, w) + rest),
{
    let t = written_text(d, w);
    let e = p + blen(t);
    assert(t == seq!['['] + v + seq![']']);
    lemma_window_split(s, p, seq!['['] + v, seq![']']);
    lemma_window_split(s, p, seq!['['], v);
    lemma_char_at(s, p, '[');
    let pc = p + 1 + blen(v);
    lemma_char_at(s, pc, ']');
    assert(pc + 1 == e);
    crate::quoting::lemma_no_close_bracket_bytes(v);
    assert forall|i: int| p + 1 <= i < pc implies #[trigger] s[i] != 0x5D by {
        assert(s[i] == s.subrange(p + 1, pc)[i - p - 1]);
    }
    lemma_find_close(s, p + 1, pc);
    if v.len() > 0 {
        crate::quoting::lemma_first_byte_pipe(v);
        assert(s[p + 1] == s.subrange(p + 1, pc)[0]);
    }
    assert(s.subrange(p + 1, pc) == encode_utf8(v));
    vstd::utf8::encode_utf8_valid_utf8(v);
    vstd::utf8::encode_utf8_decode_utf8(v);
    assert(skip_trivia(s, p) == p);
    assert(next_in_state(d, s, p, AliasState::Other) == (
        Ok::<Option<TokenModel>, LexError>(Some(TokenModel::Str(v))),
        e,
    ));
    lemma_lexes_cons(d, s, p, TokenModel::Str(v), e, rest);
}

/// The body of a `[| |]` string holds no `|]`.
proof fn lemma_body_no_closer(v: Seq<char>)
    requires
        !has_multiline_closer(v),
    ensures
        !has_multiline_closer(multiline_body(v)),
{
    let b = multiline_body(v);
    if has_multiline_closer(b) {
        let i = choose|i: int| 0 <= i && i + 1 < b.len() && #[trigger] b[i] == '|' && b[i + 1]
            == ']';
        assert(i != 0);
        if i + 1 <= v.len() {
            assert(b[i] == v[i - 1] && b[i + 1] == v[i]);
            assert(has_multiline_closer(v));
        } else {
            assert(b[i + 1] == '\n');
        }
    }
}

/// Nota `[| … |]`: one `Str` token.
#[verifier::spinoff_prover]
#[verifier::rlimit(40)]
proof fn lemma_bracket_multiline_lexes(d: Dialect, s: Seq<u8>, p: int, w: Readable, v: Seq<char>, rest: Seq<TokenModel>)
    requires
        d == Dialect::Nota,
        w == Readable::Str(v),
        v.contains(']') || v.contains('\n'),
        readable(d, w),
        window(s, p, written_text(d, w)),
        ends_token(s, p + blen(written_text(d, w))),
        lexes_all(d, s, p + blen(written_text(d, w)), rest),
    ensures
        lexes_all(d, s, p, read_tokens(d, w) + rest),
{
    let t = written_text(d, w);
    let e = p + blen(t);
    let body = multiline_body(v);
    let open = seq!['[', '|'];
    let close = seq!['|', ']'];
    assert(t =~= open + body + close);
    lemma_window_split(s, p, open + body, close);
    lemma_window_split(s, p, open, body);
    assert(vstd::utf8::is_ascii_chars(open));
    assert(vstd::utf8::is_ascii_chars(close));
    lemma_window_ascii(s, p, open);
    lemma_ascii_window_at(s, p, open);
    let pb = p + 2;
    let pc = pb + blen(body);
    lemma_window_ascii(s, pc, close);
    lemma_ascii_window_at(s, pc, close);
    assert(s[p + 0] == '[' as u8 && s[p + 1] == '|' as u8);
    assert(s[pc + 0] == '|' as u8 && s[pc + 1] == ']' as u8);
    assert(pc + 2 == e);
    lemma_body_no_closer(v);
    crate::quoting::lemma_no_pipe_close_bytes(body);
    assert forall|i: int| pb <= i < pc implies !crate::lexer::pipe_bracket_at(s, i) by {
        assert(s[i] == s.subrange(pb, pc)[i - pb]);
        if i + 1 < pc {
            assert(s[i + 1] == s.subrange(pb, pc)[i + 1 - pb]);
        }
    }
    lemma_find_pipe(s, pb, pc);
    assert(s.subrange(pb, pc) == encode_utf8(body));
    vstd::utf8::encode_utf8_valid_utf8(v);
    vstd::utf8::encode_utf8_decode_utf8(v);
    assert(skip_trivia(s, p) == p);
    assert(next_in_state(d, s, p, AliasState::Other) == (
        Ok::<Option<TokenModel>, LexError>(Some(TokenModel::Str(v))),
        e,
    ));
    lemma_lexes_cons(d, s, p, TokenModel::Str(v), e, rest);
}

/// Nexus `"…"`: one `Str` token, whatever characters it holds.
#[verifier::spinoff_prover]
#[verifier::rlimit(40)]
proof fn lemma_quoted_lexes(d: Dialect, s: Seq<u8>, p: int, w: Readable, v: Seq<char>, rest: Seq<TokenModel>)
    requires
        d == Dialect::Nexus,
        w == Readable::Str(v),
        readable(d, w),
        window(s, p, written_text(d, w)),
        ends_token(s, p + blen(written_text(d, w))),
        lexes_all(d, s, p + blen(written_text(d, w)), rest),
    ensures
        lexes_all(d, s, p, read_tokens(d, w) + rest),
{
    let t = written_text(d, w);
    let x = escape_text(v);
    let e = p + blen(t);
    assert(t == seq!['"'] + x + seq!['"']);
    lemma_window_split(s, p, seq!['"'] + x, seq!['"']);
    lemma_window_split(s, p, seq!['"'], x);
    lemma_char_at(s, p, '"');
    let pc = p + 1 + blen(x);
    lemma_char_at(s, pc, '"');
    assert(pc + 1 == e);
    crate::quoting::lemma_scan_escaped(s, p + 1, Seq::<u8>::empty(), v);
    assert(Seq::<u8>::empty() + encode_utf8(v) =~= encode_utf8(v));
    vstd::utf8::encode_utf8_valid_utf8(v);
    vstd::utf8::encode_utf8_decode_utf8(v);
    // Not `"""`.
    if blen(x) > 0 {
        crate::quoting::lemma_first_escaped_not_quote(v);
        assert(s[p + 1] == s.subrange(p + 1, p + 1 + blen(x))[0]);
    }
    assert(skip_trivia(s, p) == p);
    assert(next_in_state(d, s, p, AliasState::Other) == (
        Ok::<Option<TokenModel>, LexError>(Some(TokenModel::Str(v))),
        e,
    ));
    lemma_lexes_cons(d, s, p, TokenModel::Str(v), e, rest);
}

/// A sequence: `<`, the items, `>` (`[ ]` in nexus).
#[verifier::spinoff_prover]
#[verifier::rlimit(40)]
proof fn lemma_seq_lexes(d: Dialect, s: Seq<u8>, p: int, w: Readable, items: Seq<Readable>, rest: Seq<TokenModel>)
    requires
        w == Readable::List(items),
        readable(d, w),
        window(s, p, written_text(d, w)),
        ends_token(s, p + blen(written_text(d, w))),
        lexes_all(d, s, p + blen(written_text(d, w)), rest),
    ensures
        lexes_all(d, s, p, read_tokens(d, w) + rest),
    decreases items, 1int,
{
    let t = written_text(d, w);
    let e = p + blen(t);
    let oc = seq_open_char(d);
    let cc = seq_close_char(d);
    let ot = seq_open_token(d);
    let ct = seq_close_token(d);
    assert((oc as u32) < 0x80 && (cc as u32) < 0x80);
    if items.len() == 0 {
        assert(fields_tokens(d, items) =~= seq![]);
        assert(read_tokens(d, w) =~= seq![ot, ct]);
        assert(t =~= seq![oc] + seq![cc]);
        lemma_window_split(s, p, seq![oc], seq![cc]);
        lemma_char_at(s, p, oc);
        lemma_char_at(s, p + 1, cc);
        assert(e == p + 2);
        if d == Dialect::Nota {
            assert(s[p] == 0x3C && s[p + 1] == 0x3E);
        } else {
            assert(s[p] == 0x5B && s[p + 1] == 0x5D);
        }
        assert(skip_trivia(s, p + 1) == p + 1);
        assert(next_in_state(d, s, p + 1, AliasState::Other) == (
            Ok::<Option<TokenModel>, LexError>(Some(ct)),
            e,
        ));
        lemma_lexes_cons(d, s, p + 1, ct, e, rest);
        assert(skip_trivia(s, p) == p);
        assert(next_in_state(d, s, p, AliasState::Other) == (
            Ok::<Option<TokenModel>, LexError>(Some(ot)),
            p + 1,
        ));
        lemma_lexes_cons(d, s, p, ot, p + 1, seq![ct] + rest);
        assert(read_tokens(d, w) + rest =~= seq![ot] + (seq![ct] + rest));
    } else {
        let tail = items.subrange(1, items.len() as int);
        assert forall|k: int| 0 <= k < tail.len() implies readable(d, #[trigger] tail[k]) by {
            assert(tail[k] == items[k + 1]);
        }
        let a = written_text(d, items[0]);
        let f = fields_text(d, tail);
        assert(t == seq![oc] + a + f + seq![cc]);
        lemma_window_split(s, p, seq![oc] + a + f, seq![cc]);
        lemma_window_split(s, p, seq![oc] + a, f);
        lemma_window_split(s, p, seq![oc], a);
        lemma_char_at(s, p, oc);
        let pa = p + 1;
        let pf = pa + blen(a);
        let pc = pf + blen(f);
        lemma_char_at(s, pc, cc);
        assert(pc + 1 == e);
        if d == Dialect::Nota {
            assert(s[p] == 0x3C && s[pc] == 0x3E);
        } else {
            assert(s[p] == 0x5B && s[pc] == 0x5D);
        }
        // The closer then the rest.
        assert(skip_trivia(s, pc) == pc);
        assert(next_in_state(d, s, pc, AliasState::Other) == (
            Ok::<Option<TokenModel>, LexError>(Some(ct)),
            e,
        ));
        lemma_lexes_cons(d, s, pc, ct, e, rest);
        // The items after the first.
        assert(ends_token(s, pc));
        lemma_fields_lex(d, s, pf, tail, seq![ct] + rest);
        // The first item, ended by the next item's space or by the closer.
        if f.len() > 0 {
            assert(f[0] == ' ');
            lemma_window_prefix_space(s, pf, f);
        } else {
            assert(f =~= Seq::<char>::empty());
            assert(blen(f) == 0);
        }
        assert(ends_token(s, pf));
        let after_first = fields_tokens(d, tail) + (seq![ct] + rest);
        lemma_value_lexes(d, s, pa, items[0], after_first);
        // The opener, not followed by `|`.
        lemma_first_char(d, items[0]);
        lemma_window_first(s, pa, a);
        assert(skip_trivia(s, p) == p);
        assert(next_in_state(d, s, p, AliasState::Other) == (
            Ok::<Option<TokenModel>, LexError>(Some(ot)),
            pa,
        ));
        lemma_lexes_cons(d, s, p, ot, pa, read_tokens(d, items[0]) + after_first);
        assert(fields_tokens(d, items) == read_tokens(d, items[0]) + fields_tokens(d, tail));
        assert(read_tokens(d, w) + rest =~= seq![ot] + (read_tokens(d, items[0]) + after_first));
    }
}

/// A map entry: `(`, the key, the value, `)`.
#[verifier::spinoff_prover]
#[verifier::rlimit(40)]
proof fn lemma_entry_lexes(d: Dialect, s: Seq<u8>, p: int, w: Readable, k: Readable, v: Readable, rest: Seq<TokenModel>)
    requires
        w == Readable::Entry(Box::new(k), Box::new(v)),
        readable(d, w),
        window(s, p, written_text(d, w)),
        ends_token(s, p + blen(written_text(d, w))),
        lexes_all(d, s, p + blen(written_text(d, w)), rest),
    ensures
        lexes_all(d, s, p, read_tokens(d, w) + rest),
    decreases w, 1int,
{
    let t = written_text(d, w);
    let e = p + blen(t);
    let a = written_text(d, k);
    let b = written_text(d, v);
    assert(t == seq!['('] + a + seq![' '] + b + seq![')']);
    lemma_window_split(s, p, seq!['('] + a + seq![' '] + b, seq![')']);
    lemma_window_split(s, p, seq!['('] + a + seq![' '], b);
    lemma_window_split(s, p, seq!['('] + a, seq![' ']);
    lemma_window_split(s, p, seq!['('], a);
    lemma_char_at(s, p, '(');
    let pa = p + 1;
    let psp = pa + blen(a);
    lemma_char_at(s, psp, ' ');
    let pb = psp + 1;
    let pc = pb + blen(b);
    lemma_char_at(s, pc, ')');
    assert(pc + 1 == e);
    // `)` then the rest.
    assert(skip_trivia(s, pc) == pc);
    assert(next_in_state(d, s, pc, AliasState::Other) == (
        Ok::<Option<TokenModel>, LexError>(Some(TokenModel::RParen)),
        e,
    ));
    lemma_lexes_cons(d, s, pc, TokenModel::RParen, e, rest);
    // The value, then the key before its space.
    assert(ends_token(s, pc));
    let after_value = seq![TokenModel::RParen] + rest;
    lemma_value_lexes(d, s, pb, v, after_value);
    let after_key = read_tokens(d, v) + after_value;
    lemma_lexes_skip_space(d, s, psp, after_key);
    assert(ends_token(s, psp));
    lemma_value_lexes(d, s, pa, k, after_key);
    // `(`, not followed by `|`.
    lemma_first_char(d, k);
    lemma_window_first(s, pa, a);
    assert(skip_trivia(s, p) == p);
    assert(next_in_state(d, s, p, AliasState::Other) == (
        Ok::<Option<TokenModel>, LexError>(Some(TokenModel::LParen)),
        pa,
    ));
    lemma_lexes_cons(d, s, p, TokenModel::LParen, pa, read_tokens(d, k) + after_key);
    assert(read_tokens(d, w) + rest =~= seq![TokenModel::LParen] + (read_tokens(d, k) + after_key));
}

/// The written fields, found in `s` from `p` and followed by a space,
/// `)`, `]` or the end, lex as the fields' tokens.
proof fn lemma_fields_lex(d: Dialect, s: Seq<u8>, p: int, fs: Seq<Readable>, rest: Seq<TokenModel>)
    requires
        forall|k: int| 0 <= k < fs.len() ==> readable(d, #[trigger] fs[k]),
        window(s, p, fields_text(d, fs)),
        ends_token(s, p + blen(fields_text(d, fs))),
        lexes_all(d, s, p + blen(fields_text(d, fs)), rest),
    ensures
        lexes_all(d, s, p, fields_tokens(d, fs) + rest),
    decreases fs, 0int,
{
    if fs.len() == 0 {
        assert(fields_tokens(d, fs) + rest =~= rest);
        assert(fields_text(d, fs) =~= Seq::<char>::empty());
        assert(blen(fields_text(d, fs)) == 0);
    } else {
        let tail = fs.subrange(1, fs.len() as int);
        assert forall|k: int| 0 <= k < tail.len() implies readable(d, #[trigger] tail[k]) by {
            assert(tail[k] == fs[k + 1]);
        }
        let a = written_text(d, fs[0]);
        let r = fields_text(d, tail);
        assert(fields_text(d, fs) == seq![' '] + a + r);
        lemma_window_split(s, p, seq![' '] + a, r);
        lemma_window_split(s, p, seq![' '], a);
        lemma_char_at(s, p, ' ');
        let q = p + 1 + blen(a);
        if r.len() > 0 {
            assert(r[0] == ' ');
            lemma_window_prefix_space(s, q, r);
        } else {
            assert(r =~= Seq::<char>::empty());
            assert(blen(r) == 0);
        }
        assert(ends_token(s, q));
        lemma_fields_lex(d, s, q, tail, rest);
        lemma_value_lexes(d, s, p + 1, fs[0], fields_tokens(d, tail) + rest);
        lemma_lexes_skip_space(d, s, p, read_tokens(d, fs[0]) + (fields_tokens(d, tail) + rest));
        assert(fields_tokens(d, fs) + rest =~= read_tokens(d, fs[0]) + (fields_tokens(d, tail) + rest));
    }
}

/// What the writer writes for a value the lexer reads back as that
/// value's tokens, in order, and then the end of the input: words
/// (`true`, `false`, bare strings, `None`, unit structs and variants),
/// strings (quoted in nexus; bracketed in nota, where the bracketed form
/// reads back), integers, non-empty byte strings,
/// records (a struct, newtype struct, struct or newtype variant),
/// sequences and maps (a sequence of `(k v)` entries), nested to any
/// depth, and in nexus also prefix wrappers, binds and atomic batches of
/// these.
pub proof fn law_written_value_reads_back(d: Dialect, w: Readable)
    requires
        readable(d, w),
    ensures
        lexes_as(d, encode_utf8(written_text(d, w)), 0, AliasState::Other, read_tokens(d, w)),
{
    let t = written_text(d, w);
    let s = encode_utf8(t);
    assert(s.subrange(0, blen(t)) =~= s);
    lemma_lexes_end(d, s);
    lemma_value_lexes(d, s, 0, w, seq![]);
    assert(read_tokens(d, w) + seq![] =~= read_tokens(d, w));
}

// ---------- maps ----------

proof fn lemma_bytes_lt_irreflexive(a: Seq<u8>)
    ensures
        !bytes_lt(a, a),
    decreases a.len(),
{
    if a.len() > 0 {
        lemma_bytes_lt_irreflexive(a.drop_first());
    }
}

proof fn lemma_bytes_lt_transitive(a: Seq<u8>, b: Seq<u8>, c: Seq<u8>)
    requires
        bytes_lt(a, b),
        bytes_lt(b, c),
    ensures
        bytes_lt(a, c),
    decreases a.len(),
{
    if a.len() > 0 && b.len() > 0 && c.len() > 0 && a[0] == b[0] && b[0] == c[0] {
        lemma_bytes_lt_transitive(a.drop_first(), b.drop_first(), c.drop_first());
    }
}

proof fn lemma_bytes_lt_total(a: Seq<u8>, b: Seq<u8>)
    requires
        a != b,
    ensures
        bytes_lt(a, b) || bytes_lt(b, a),
    decreases a.len(),
{
    if a.len() > 0 && b.len() > 0 && a[0] == b[0] {
        if a.drop_first() == b.drop_first() {
            assert(a =~= seq![a[0]] + a.drop_first());
            assert(b =~= seq![b[0]] + b.drop_first());
        }
        lemma_bytes_lt_total(a.drop_first(), b.drop_first());
    } else if a.len() == 0 && b.len() == 0 {
        assert(a =~= b);
    }
}

/// Entries in ascending key order: no entry's key sorts after a later one's.
pub open spec fn keys_sorted(s: Seq<EntryModel>) -> bool {
    forall|i: int, j: int| 0 <= i < j < s.len() ==> !key_after(#[trigger] s[i], #[trigger] s[j])
}

/// No two entries share a key.
pub open spec fn distinct_keys(s: Seq<EntryModel>) -> bool {
    forall|i: int, j: int| 0 <= i < j < s.len() ==> (#[trigger] s[i]).0 != (#[trigger] s[j]).0
}

spec fn keys_unique_in(m: Multiset<EntryModel>) -> bool {
    forall|a: EntryModel, b: EntryModel|
        #![trigger m.count(a), m.count(b)]
        m.count(a) > 0 && m.count(b) > 0 && a.0 == b.0 ==> a == b && m.count(a) == 1
}

proof fn lemma_insert_by_key(s: Seq<EntryModel>, e: EntryModel)
    requires
        keys_sorted(s),
    ensures
        keys_sorted(insert_by_key(s, e)),
        insert_by_key(s, e).to_multiset() == s.to_multiset().insert(e),
    decreases s.len(),
{
    broadcast use vstd::seq_lib::group_to_multiset_ensures, vstd::multiset::group_multiset_axioms;

    if s.len() == 0 {
        assert(seq![e] =~= Seq::<EntryModel>::empty().push(e));
    } else if key_after(s[0], e) {
        let r = seq![e] + s;
        assert forall|i: int, j: int| 0 <= i < j < r.len() implies !key_after(
            #[trigger] r[i],
            #[trigger] r[j],
        ) by {
            if i == 0 {
                let y = s[j - 1];
                if key_after(e, y) {
                    lemma_bytes_lt_transitive(
                        encode_utf8(y.0),
                        encode_utf8(e.0),
                        encode_utf8(s[0].0),
                    );
                    if j - 1 == 0 {
                        lemma_bytes_lt_irreflexive(encode_utf8(y.0));
                    } else {
                        assert(!key_after(s[0], s[j - 1]));
                    }
                }
            } else {
                assert(r[i] == s[i - 1] && r[j] == s[j - 1]);
            }
        }
        vstd::seq_lib::lemma_multiset_commutative(seq![e], s);
        assert(seq![e] =~= Seq::<EntryModel>::empty().push(e));
        assert(r.to_multiset() =~= s.to_multiset().insert(e));
    } else {
        let rest = s.drop_first();
        assert forall|i: int, j: int| 0 <= i < j < rest.len() implies !key_after(
            #[trigger] rest[i],
            #[trigger] rest[j],
        ) by {
            assert(rest[i] == s[i + 1] && rest[j] == s[j + 1]);
        }
        lemma_insert_by_key(rest, e);
        let t = insert_by_key(rest, e);
        let r = seq![s[0]] + t;
        assert forall|i: int, j: int| 0 <= i < j < r.len() implies !key_after(
            #[trigger] r[i],
            #[trigger] r[j],
        ) by {
            if i == 0 {
                let y = t[j - 1];
                assert(t.to_multiset().count(y) > 0);
                if y != e {
                    assert(rest.to_multiset().count(y) > 0);
                    assert(rest.contains(y));
                    let k = choose|k: int| 0 <= k < rest.len() && rest[k] == y;
                    assert(s[k + 1] == y);
                }
            } else {
                assert(r[i] == t[i - 1] && r[j] == t[j - 1]);
            }
        }
        vstd::seq_lib::lemma_multiset_commutative(seq![s[0]], t);
        vstd::seq_lib::lemma_multiset_commutative(seq![s[0]], rest);
        assert(s =~= seq![s[0]] + rest);
        assert(r.to_multiset() =~= s.to_multiset().insert(e));
    }
}

proof fn lemma_sort_entries(s: Seq<EntryModel>)
    ensures
        keys_sorted(sort_entries(s)),
        sort_entries(s).to_multiset() == s.to_multiset(),
    decreases s.len(),
{
    broadcast use vstd::seq_lib::group_to_multiset_ensures;

    if s.len() > 0 {
        lemma_sort_entries(s.drop_last());
        lemma_insert_by_key(sort_entries(s.drop_last()), s.last());
        assert(s.drop_last().push(s.last()) =~= s);
    }
}

proof fn lemma_sorted_unique(x: Seq<EntryModel>, y: Seq<EntryModel>)
    requires
        keys_sorted(x),
        keys_sorted(y),
        x.to_multiset() == y.to_multiset(),
        keys_unique_in(x.to_multiset()),
    ensures
        x == y,
    decreases x.len(),
{
    broadcast use vstd::seq_lib::group_to_multiset_ensures, vstd::multiset::group_multiset_axioms;
    broadcast use vstd::utf8::encode_utf8_decode_utf8;

    if x.len() == 0 {
        assert(y.to_multiset().len() == 0);
        assert(x =~= y);
    } else {
        assert(x.to_multiset().len() == x.len());
        assert(y.to_multiset().len() == y.len());
        assert(x.to_multiset().count(x[0]) > 0);
        assert(y.to_multiset().count(y[0]) > 0);
        assert(x.contains(y[0]));
        assert(y.contains(x[0]));
        let i = choose|i: int| 0 <= i < x.len() && x[i] == y[0];
        let j = choose|j: int| 0 <= j < y.len() && y[j] == x[0];
        let k0 = encode_utf8(x[0].0);
        let ki = encode_utf8(y[0].0);
        if i > 0 {
            assert(!key_after(x[0], x[i]));
        } else {
            lemma_bytes_lt_irreflexive(k0);
        }
        if j > 0 {
            assert(!key_after(y[0], y[j]));
        } else {
            lemma_bytes_lt_irreflexive(k0);
        }
        if ki != k0 {
            lemma_bytes_lt_total(ki, k0);
        }
        assert(vstd::utf8::decode_utf8(ki) == y[0].0);
        assert(x[0].0 == y[0].0);
        assert(x[0] == y[0]);
        assert(x.remove(0) =~= x.drop_first());
        assert(y.remove(0) =~= y.drop_first());
        let m = x.to_multiset().remove(x[0]);
        assert(x.drop_first().to_multiset() == m);
        assert(y.drop_first().to_multiset() == m);
        assert forall|i: int, j: int| 0 <= i < j < x.drop_first().len() implies !key_after(
            #[trigger] x.drop_first()[i],
            #[trigger] x.drop_first()[j],
        ) by {
            assert(x.drop_first()[i] == x[i + 1] && x.drop_first()[j] == x[j + 1]);
        }
        assert forall|i: int, j: int| 0 <= i < j < y.drop_first().len() implies !key_after(
            #[trigger] y.drop_first()[i],
            #[trigger] y.drop_first()[j],
        ) by {
            assert(y.drop_first()[i] == y[i + 1] && y.drop_first()[j] == y[j + 1]);
        }
        assert forall|a: EntryModel, b: EntryModel|
            #![trigger m.count(a), m.count(b)]
            m.count(a) > 0 && m.count(b) > 0 && a.0 == b.0 implies a == b && m.count(a) == 1 by {
            assert(x.to_multiset().count(a) > 0);
            assert(x.to_multiset().count(b) > 0);
        }
        lemma_sorted_unique(x.drop_first(), y.drop_first());
        assert(x =~= y) by {
            assert forall|k: int| 0 <= k < x.len() implies x[k] == y[k] by {
                if k > 0 {
                    assert(x[k] == x.drop_first()[k - 1]);
                    assert(y[k] == y.drop_first()[k - 1]);
                }
            }
        }
    }
}

/// The entries of `s` whose key is `k`.
pub open spec fn with_key(k: Seq<char>) -> spec_fn(EntryModel) -> bool {
    |e: EntryModel| e.0 == k
}

proof fn lemma_singleton_filter(e: EntryModel, k: Seq<char>)
    ensures
        seq![e].filter(with_key(k)) == (if e.0 == k {
            seq![e]
        } else {
            Seq::<EntryModel>::empty()
        }),
{
    reveal(Seq::filter);
    assert(seq![e].drop_last() =~= Seq::<EntryModel>::empty());
    assert(Seq::<EntryModel>::empty().filter(with_key(k)) =~= Seq::<EntryModel>::empty());
    assert(Seq::<EntryModel>::empty().push(e) =~= seq![e]);
}

/// Inserting by key puts an entry after every entry of its key.
proof fn lemma_insert_keeps_key_order(t: Seq<EntryModel>, e: EntryModel, k: Seq<char>)
    requires
        keys_sorted(t),
    ensures
        insert_by_key(t, e).filter(with_key(k)) == (if e.0 == k {
            t.filter(with_key(k)).push(e)
        } else {
            t.filter(with_key(k))
        }),
    decreases t.len(),
{
    let f = with_key(k);
    lemma_singleton_filter(e, k);
    if t.len() == 0 {
        reveal(Seq::filter);
        assert(t.filter(f) =~= Seq::<EntryModel>::empty());
        assert(Seq::<EntryModel>::empty().push(e) =~= seq![e]);
    } else if key_after(t[0], e) {
        Seq::filter_distributes_over_add(seq![e], t, f);
        if e.0 == k {
            assert forall|j: int| 0 <= j < t.len() implies !f(#[trigger] t[j]) by {
                if t[j].0 == k {
                    lemma_bytes_lt_irreflexive(encode_utf8(k));
                    if j > 0 {
                        assert(!key_after(t[0], t[j]));
                        if encode_utf8(t[0].0) != encode_utf8(k) {
                            lemma_bytes_lt_total(encode_utf8(t[0].0), encode_utf8(k));
                            lemma_bytes_lt_transitive(encode_utf8(k), encode_utf8(t[0].0), encode_utf8(k));
                        }
                    }
                }
            }
            t.lemma_all_neg_filter_empty(f);
            assert(t.filter(f) =~= Seq::<EntryModel>::empty());
            assert(Seq::<EntryModel>::empty().push(e) =~= seq![e]);
        } else {
            assert(seq![e].filter(f) + t.filter(f) =~= t.filter(f));
        }
    } else {
        let u = t.drop_first();
        assert(keys_sorted(u)) by {
            assert forall|i: int, j: int| 0 <= i < j < u.len() implies !key_after(
                #[trigger] u[i],
                #[trigger] u[j],
            ) by {
                assert(u[i] == t[i + 1] && u[j] == t[j + 1]);
            }
        }
        lemma_insert_keeps_key_order(u, e, k);
        lemma_singleton_filter(t[0], k);
        Seq::filter_distributes_over_add(seq![t[0]], insert_by_key(u, e), f);
        assert(t =~= seq![t[0]] + u);
        Seq::filter_distributes_over_add(seq![t[0]], u, f);
        if e.0 == k {
            assert(seq![t[0]].filter(f) + u.filter(f).push(e) =~= (seq![t[0]].filter(f) + u.filter(
                f,
            )).push(e));
        }
    }
}

/// Sorting is stable: the entries that share a key keep the order in
/// which they were given.
pub proof fn law_map_sort_is_stable(s: Seq<EntryModel>, k: Seq<char>)
    ensures
        sort_entries(s).filter(with_key(k)) == s.filter(with_key(k)),
    decreases s.len(),
{
    if s.len() > 0 {
        let u = s.drop_last();
        law_map_sort_is_stable(u, k);
        lemma_sort_entries(u);
        lemma_insert_keeps_key_order(sort_entries(u), s.last(), k);
        reveal(Seq::filter);
    } else {
        reveal(Seq::filter);
    }
}

/// Keys are ordered lexicographically by their bytes: `a` sorts before
/// `b` exactly when, at the first position where they differ, `a` has the
/// smaller byte, or when `a` is a proper prefix of `b`.
pub proof fn law_key_order_is_lexicographic(a: Seq<u8>, b: Seq<u8>)
    ensures
        bytes_lt(a, b) <==> ((exists|i: int|
            0 <= i < a.len() && i < b.len() && a.take(i) == b.take(i) && #[trigger] a[i] < b[i])
            || (a.len() < b.len() && b.take(a.len() as int) == a)),
    decreases a.len(),
{
    if a.len() == 0 {
        assert(b.len() > 0 ==> b.take(0) =~= a);
    } else if b.len() == 0 {
    } else if a[0] < b[0] {
        assert(a.take(0) =~= b.take(0));
        assert(a[0] < b[0]);
    } else if a[0] > b[0] {
        if exists|i: int| 0 <= i < a.len() && i < b.len() && a.take(i) == b.take(i) && #[trigger] a[i]
            < b[i] {
            let i = choose|i: int|
                0 <= i < a.len() && i < b.len() && a.take(i) == b.take(i) && #[trigger] a[i] < b[i];
            if i > 0 {
                assert(a.take(i)[0] == b.take(i)[0]);
            }
        }
        if a.len() < b.len() && b.take(a.len() as int) == a {
            assert(b.take(a.len() as int)[0] == b[0]);
        }
    } else {
        let a1 = a.drop_first();
        let b1 = b.drop_first();
        law_key_order_is_lexicographic(a1, b1);
        if exists|i: int| 0 <= i < a1.len() && i < b1.len() && a1.take(i) == b1.take(i) && #[trigger] a1[i]
            < b1[i] {
            let i = choose|i: int|
                0 <= i < a1.len() && i < b1.len() && a1.take(i) == b1.take(i) && #[trigger] a1[i] < b1[i];
            assert(a.take(i + 1) =~= seq![a[0]] + a1.take(i));
            assert(b.take(i + 1) =~= seq![b[0]] + b1.take(i));
            assert(a[i + 1] == a1[i]);
        }
        if a1.len() < b1.len() && b1.take(a1.len() as int) == a1 {
            assert(b.take(a.len() as int) =~= seq![b[0]] + b1.take(a1.len() as int));
            assert(a =~= seq![a[0]] + a1);
        }
        if exists|i: int| 0 <= i < a.len() && i < b.len() && a.take(i) == b.take(i) && #[trigger] a[i]
            < b[i] {
            let i = choose|i: int|
                0 <= i < a.len() && i < b.len() && a.take(i) == b.take(i) && #[trigger] a[i] < b[i];
            assert(i > 0);
            assert(a1.take(i - 1) =~= a.take(i).drop_first());
            assert(b1.take(i - 1) =~= b.take(i).drop_first());
            assert(a1[i - 1] == a[i]);
        }
        if a.len() < b.len() && b.take(a.len() as int) == a {
            assert(b1.take(a1.len() as int) =~= b.take(a.len() as int).drop_first());
        }
    }
}

/// A key that is a proper prefix of another sorts before it.
pub proof fn law_prefix_key_sorts_first(a: Seq<u8>, c: Seq<u8>)
    requires
        c.len() > 0,
    ensures
        bytes_lt(a, a + c),
{
    law_key_order_is_lexicographic(a, a + c);
    assert((a + c).take(a.len() as int) =~= a);
}

/// A map is written in ascending order of its keys' UTF-8 bytes, holding
/// exactly the entries it was given.
pub proof fn law_map_entries_sorted(s: Seq<EntryModel>)
    ensures
        keys_sorted(sort_entries(s)),
        sort_entries(s).to_multiset() == s.to_multiset(),
{
    lemma_sort_entries(s);
}

/// The written form of a map does not depend on the order its entries
/// were given in: entries with distinct keys, given in any order, are
/// written as the same text.
pub proof fn law_map_text_canonical(s1: Seq<EntryModel>, s2: Seq<EntryModel>)
    requires
        s1.to_multiset() == s2.to_multiset(),
        distinct_keys(s1),
    ensures
        forall|d: Dialect| map_text(d, s1) == map_text(d, s2),
{
    broadcast use vstd::seq_lib::group_to_multiset_ensures, vstd::multiset::group_multiset_axioms;

    lemma_sort_entries(s1);
    lemma_sort_entries(s2);
    assert(s1.no_duplicates()) by {
        assert forall|i: int, j: int| 0 <= i < s1.len() && 0 <= j < s1.len() && i != j implies s1[i]
            != s1[j] by {
            if i < j {
                assert(s1[i].0 != s1[j].0);
            } else {
                assert(s1[j].0 != s1[i].0);
            }
        }
    }
    s1.lemma_multiset_has_no_duplicates();
    let m = s1.to_multiset();
    assert forall|a: EntryModel, b: EntryModel|
        #![trigger m.count(a), m.count(b)]
        m.count(a) > 0 && m.count(b) > 0 && a.0 == b.0 implies a == b && m.count(a) == 1 by {
        assert(s1.contains(a));
        assert(s1.contains(b));
        let i = choose|i: int| 0 <= i < s1.len() && s1[i] == a;
        let j = choose|j: int| 0 <= j < s1.len() && s1[j] == b;
        if i < j {
            assert(s1[i].0 != s1[j].0);
        } else if j < i {
            assert(s1[j].0 != s1[i].0);
        }
    }
    lemma_sorted_unique(sort_entries(s1), sort_entries(s2));
}

} // verus!
