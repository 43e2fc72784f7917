//! Tokenizer for nota/nexus text.
//!
//! The lexer never needs schema information: every token is decided by
//! its first byte (and at most two bytes of lookahead), apart from `=`,
//! which also depends on the two tokens before it.
//!
//! Both dialects read `( )` records, `" "` and `""" """` strings, `#hex`
//! bytes, numbers, identifiers and `;;` comments.
//! [`Dialect::Nota`] also reads `< >` (the sequence brackets) and the
//! bracketed strings `[…]` (verbatim up to the next `]`) and `[| … |]`
//! (dedented, up to the next `|]`). [`Dialect::Nexus`] reads `[ ]` as
//! sequence brackets and adds `(| |)`, `[| |]`, `{ }`, `{| |}`, the sigils
//! `~ @ ! ? *` and the bind alias `=` (only right after a bind name, as
//! in `@a=@b`). `<=`, `>=`, `!=` and any other `=` are reserved for
//! comparison operators in both dialects, and so are `<` and `>` in
//! nexus.
//!
//! The behaviour is stated over the UTF-8 bytes of the input by the
//! spec functions below; [`next_in_state`] and [`alias_after`] are the
//! whole contract of [`Lexer::next_token`].

use vstd::prelude::*;
use vstd::string::StringSliceAdditionalSpecFns;
use vstd::utf8::*;

use crate::dedent::{dedent, dedent_bytes};
use crate::error::{Error, ErrorModel, LexError};
use crate::message::{lex_error_message, lex_error_text};
use crate::number::{
    float_literal_syntax, int_literal, is_float_literal, underscore_filter, parse_int_literal,
    strip_underscores, strip_underscores_exec,
};
use crate::text::{
    all_ascii, ascii_string, ascii_text, digit_value, hex_digit, is_ascii_ws, is_digit,
    is_ident_continue, is_ident_start, is_lower_hex, is_radix_digit, spec_ident_continue,
    spec_ident_start, spec_radix_digit, spec_utf8_char_len, string_from_utf8, utf8_char_len,
};

verus! {

/// Grammar dialect — picks the token set the lexer recognises.
#[derive(Debug, Clone, Copy, PartialEq, Eq, Structural, Default)]
pub enum Dialect {
    #[default]
    Nota,
    Nexus,
}

#[derive(Debug, Clone, PartialEq)]
pub enum Token {
    LParen,
    RParen,
    LBracket,
    RBracket,
    /// `<`: opens a sequence or map in nota.
    LAngle,
    /// `>`: closes a sequence or map in nota.
    RAngle,
    Equals,
    Colon,
    Bool(bool),
    /// Integer literal that fits `i128`.
    Int(i128),
    /// Integer literal above `i128::MAX`, up to `u128::MAX`.
    UInt(u128),
    /// Float literal, as its text with underscores removed; the text is
    /// one that Rust's `f64` parser accepts.
    Float(String),
    Str(String),
    Bytes(Vec<u8>),
    /// Bare identifier (never `true` / `false`, which lex as `Bool`).
    Ident(String),
    Tilde,
    At,
    Bang,
    Question,
    Star,
    LBrace,
    RBrace,
    LBracePipe,
    RBracePipe,
    LParenPipe,
    RParenPipe,
    LBracketPipe,
    RBracketPipe,
}

/// The mathematical value of a [`Token`].
pub enum TokenModel {
    LParen,
    RParen,
    LBracket,
    RBracket,
    LAngle,
    RAngle,
    Equals,
    Colon,
    Bool(bool),
    Int(i128),
    UInt(u128),
    Float(Seq<char>),
    Str(Seq<char>),
    Bytes(Seq<u8>),
    Ident(Seq<char>),
    Tilde,
    At,
    Bang,
    Question,
    Star,
    LBrace,
    RBrace,
    LBracePipe,
    RBracePipe,
    LParenPipe,
    RParenPipe,
    LBracketPipe,
    RBracketPipe,
}

impl View for Token {
    type V = TokenModel;

    open spec fn view(&self) -> TokenModel {
        match self {
            Token::LParen => TokenModel::LParen,
            Token::RParen => TokenModel::RParen,
            Token::LBracket => TokenModel::LBracket,
            Token::RBracket => TokenModel::RBracket,
            Token::LAngle => TokenModel::LAngle,
            Token::RAngle => TokenModel::RAngle,
            Token::Equals => TokenModel::Equals,
            Token::Colon => TokenModel::Colon,
            Token::Bool(b) => TokenModel::Bool(*b),
            Token::Int(i) => TokenModel::Int(*i),
            Token::UInt(u) => TokenModel::UInt(*u),
            Token::Float(f) => TokenModel::Float(f@),
            Token::Str(s) => TokenModel::Str(s@),
            Token::Bytes(b) => TokenModel::Bytes(b@),
            Token::Ident(s) => TokenModel::Ident(s@),
            Token::Tilde => TokenModel::Tilde,
            Token::At => TokenModel::At,
            Token::Bang => TokenModel::Bang,
            Token::Question => TokenModel::Question,
            Token::Star => TokenModel::Star,
            Token::LBrace => TokenModel::LBrace,
            Token::RBrace => TokenModel::RBrace,
            Token::LBracePipe => TokenModel::LBracePipe,
            Token::RBracePipe => TokenModel::RBracePipe,
            Token::LParenPipe => TokenModel::LParenPipe,
            Token::RParenPipe => TokenModel::RParenPipe,
            Token::LBracketPipe => TokenModel::LBracketPipe,
            Token::RBracketPipe => TokenModel::RBracketPipe,
        }
    }
}

fn copy_bytes(v: &Vec<u8>) -> (r: Vec<u8>)
    ensures
        r@ == v@,
{
    let mut r: Vec<u8> = Vec::new();
    let mut i: usize = 0;
    while i < v.len()
        invariant
            i <= v@.len(),
            r@ == v@.take(i as int),
        decreases v.len() - i,
    {
        r.push(v[i]);
        i = i + 1;
        assert(r@ =~= v@.take(i as int));
    }
    assert(v@.take(i as int) =~= v@);
    r
}

impl Token {
    /// A copy of the token with the same value.
    pub fn duplicate(&self) -> (r: Token)
        ensures
            r@ == self@,
    {
        match self {
            Token::LParen => Token::LParen,
            Token::RParen => Token::RParen,
            Token::LBracket => Token::LBracket,
            Token::RBracket => Token::RBracket,
            Token::LAngle => Token::LAngle,
            Token::RAngle => Token::RAngle,
            Token::Equals => Token::Equals,
            Token::Colon => Token::Colon,
            Token::Bool(b) => Token::Bool(*b),
            Token::Int(i) => Token::Int(*i),
            Token::UInt(u) => Token::UInt(*u),
            Token::Float(f) => Token::Float(f.clone()),
            Token::Str(s) => Token::Str(s.clone()),
            Token::Bytes(b) => Token::Bytes(copy_bytes(b)),
            Token::Ident(s) => Token::Ident(s.clone()),
            Token::Tilde => Token::Tilde,
            Token::At => Token::At,
            Token::Bang => Token::Bang,
            Token::Question => Token::Question,
            Token::Star => Token::Star,
            Token::LBrace => Token::LBrace,
            Token::RBrace => Token::RBrace,
            Token::LBracePipe => Token::LBracePipe,
            Token::RBracePipe => Token::RBracePipe,
            Token::LParenPipe => Token::LParenPipe,
            Token::RParenPipe => Token::RParenPipe,
            Token::LBracketPipe => Token::LBracketPipe,
            Token::RBracketPipe => Token::RBracketPipe,
        }
    }
}

// ---------- the token grammar, over bytes ----------

pub open spec fn byte_at(s: Seq<u8>, i: int) -> Option<u8> {
    if 0 <= i < s.len() {
        Some(s[i])
    } else {
        None
    }
}

/// End of a `;;` comment starting at `p`: just past the next `\n`, or
/// the end of the input.
pub open spec fn comment_end(s: Seq<u8>, p: int) -> int
    decreases s.len() - p,
{
    if p >= s.len() {
        p
    } else if s[p] == 0x0A {
        p + 1
    } else {
        comment_end(s, p + 1)
    }
}

pub proof fn lemma_comment_end(s: Seq<u8>, p: int)
    requires
        0 <= p < s.len(),
    ensures
        p < comment_end(s, p) <= s.len(),
    decreases s.len() - p,
{
    if s[p] != 0x0A {
        if p + 1 < s.len() {
            lemma_comment_end(s, p + 1);
        } else {
            assert(comment_end(s, p + 1) == p + 1);
        }
    }
}

/// First position at or after `p` that is neither ASCII whitespace nor
/// inside a `;;` comment.
pub open spec fn skip_trivia(s: Seq<u8>, p: int) -> int
    decreases s.len() - p,
{
    if 0 <= p < s.len() && is_ascii_ws(s[p]) {
        skip_trivia(s, p + 1)
    } else if 0 <= p && p + 1 < s.len() && s[p] == 0x3B && s[p + 1] == 0x3B {
        proof {
            lemma_comment_end(s, p);
        }
        skip_trivia(s, comment_end(s, p))
    } else {
        p
    }
}

/// End of the run of bytes satisfying `f` that starts at `p`.
pub open spec fn span_end(s: Seq<u8>, p: int, f: spec_fn(u8) -> bool) -> int
    decreases s.len() - p,
{
    if 0 <= p < s.len() && f(s[p]) {
        span_end(s, p + 1, f)
    } else {
        p
    }
}

pub open spec fn ident_continue_fn() -> spec_fn(u8) -> bool {
    |b: u8| spec_ident_continue(b)
}

pub open spec fn lower_hex_fn() -> spec_fn(u8) -> bool {
    |b: u8| is_lower_hex(b)
}

pub open spec fn radix_run_fn(radix: u32) -> spec_fn(u8) -> bool {
    |b: u8| b == 0x5F || spec_radix_digit(b, radix)
}

pub open spec fn is_true_text(t: Seq<u8>) -> bool {
    t == seq![0x74u8, 0x72u8, 0x75u8, 0x65u8]
}

pub open spec fn is_false_text(t: Seq<u8>) -> bool {
    t == seq![0x66u8, 0x61u8, 0x6Cu8, 0x73u8, 0x65u8]
}

/// Identifier starting at `p`; `true` / `false` are booleans.
pub open spec fn lex_ident(s: Seq<u8>, p: int) -> (Result<TokenModel, LexError>, int) {
    let e = span_end(s, p, ident_continue_fn());
    let t = s.subrange(p, e);
    if is_true_text(t) {
        (Ok(TokenModel::Bool(true)), e)
    } else if is_false_text(t) {
        (Ok(TokenModel::Bool(false)), e)
    } else {
        (Ok(TokenModel::Ident(ascii_text(t))), e)
    }
}

/// Bytes of an even-length run of hex digits, two digits per byte.
pub open spec fn hex_decode(h: Seq<u8>) -> Seq<u8>
    decreases h.len(),
{
    if h.len() < 2 {
        seq![]
    } else {
        seq![(digit_value(h[0]) * 16 + digit_value(h[1])) as u8] + hex_decode(h.skip(2))
    }
}

/// Byte literal whose digits start at `q` (just after `#`).
pub open spec fn lex_bytes(s: Seq<u8>, q: int) -> (Result<TokenModel, LexError>, int) {
    let e = span_end(s, q, lower_hex_fn());
    let n = e - q;
    if n == 0 {
        (Err(LexError::EmptyByteLiteral), e)
    } else if n % 2 != 0 {
        (Err(LexError::OddHexDigitCount { count: n as usize }), e)
    } else {
        (Ok(TokenModel::Bytes(hex_decode(s.subrange(q, e)))), e)
    }
}

/// Decimal number body from `p`: digits and `_`, one `.` before any
/// exponent, one `e`/`E` exponent with an optional sign. Returns the end
/// and whether a dot / an exponent was seen.
pub open spec fn decimal_scan(s: Seq<u8>, p: int, dot: bool, exp: bool) -> (int, bool, bool)
    decreases s.len() - p,
{
    if !(0 <= p < s.len()) {
        (p, dot, exp)
    } else {
        let b = s[p];
        if is_digit(b) || b == 0x5F {
            decimal_scan(s, p + 1, dot, exp)
        } else if b == 0x2E && !dot && !exp {
            decimal_scan(s, p + 1, true, exp)
        } else if (b == 0x65 || b == 0x45) && !exp {
            if p + 1 < s.len() && (s[p + 1] == 0x2B || s[p + 1] == 0x2D) {
                decimal_scan(s, p + 2, dot, true)
            } else {
                decimal_scan(s, p + 1, dot, true)
            }
        } else {
            (p, dot, exp)
        }
    }
}

/// Radix announced by the letter after a leading `0`, or 0 for none.
pub open spec fn radix_of(b: u8) -> u32 {
    if b == 0x78 || b == 0x58 {
        16
    } else if b == 0x62 || b == 0x42 {
        2
    } else if b == 0x6F || b == 0x4F {
        8
    } else {
        0
    }
}

/// The digits of a prefixed integer, with the sign written before the
/// prefix (if any) in front of them.
pub open spec fn signed_digits(s: Seq<u8>, start: int, q: int, e: int) -> Seq<u8> {
    let digits = strip_underscores(s.subrange(q, e));
    if s[start] == 0x2D {
        seq![0x2Du8] + digits
    } else {
        digits
    }
}

/// Prefixed integer: the number starts at `start`, its digits at `q`. A
/// `-` before the prefix negates the value (`-0x10` is -16).
pub open spec fn lex_radix(s: Seq<u8>, start: int, q: int, radix: u32) -> (
    Result<TokenModel, LexError>,
    int,
) {
    let e = span_end(s, q, radix_run_fn(radix));
    match int_literal(signed_digits(s, start, q, e), radix) {
        Ok(t) => (Ok(t), e),
        Err(k) => (
            Err(LexError::InvalidRadixInt { radix, start: start as usize, end: e as usize, reason: k }),
            e,
        ),
    }
}

/// Number starting at `p` (on `-` or a digit).
pub open spec fn lex_number(s: Seq<u8>, p: int) -> (Result<TokenModel, LexError>, int) {
    let q = if s[p] == 0x2D {
        p + 1
    } else {
        p
    };
    if q + 1 < s.len() && s[q] == 0x30 && radix_of(s[q + 1]) != 0 {
        lex_radix(s, p, q + 2, radix_of(s[q + 1]))
    } else {
        let (e, dot, exp) = decimal_scan(s, q, false, false);
        let cleaned = strip_underscores(s.subrange(p, e));
        if dot || exp {
            if float_literal_syntax(cleaned) {
                (Ok(TokenModel::Float(ascii_text(cleaned))), e)
            } else {
                (Err(LexError::InvalidFloat { start: p as usize, end: e as usize }), e)
            }
        } else {
            match int_literal(cleaned, 10) {
                Ok(t) => (Ok(t), e),
                Err(k) => (
                    Err(LexError::InvalidInteger { start: p as usize, end: e as usize, reason: k }),
                    e,
                ),
            }
        }
    }
}

/// UTF-8 encoding of `b as char` (Latin-1 reading of one byte).
pub open spec fn latin1_bytes(b: u8) -> Seq<u8> {
    if b < 0x80 {
        seq![b]
    } else {
        seq![(0xC0u8 | (b >> 6u8)) as u8, (0x80u8 | (b & 0x3Fu8)) as u8]
    }
}

/// Byte an escape letter stands for, if it is one of `\\ \" \n \t \r`.
pub open spec fn escape_byte(esc: u8) -> Option<u8> {
    if esc == 0x5C {
        Some(0x5Cu8)
    } else if esc == 0x22 {
        Some(0x22u8)
    } else if esc == 0x6E {
        Some(0x0Au8)
    } else if esc == 0x74 {
        Some(0x09u8)
    } else if esc == 0x72 {
        Some(0x0Du8)
    } else {
        None
    }
}

/// Content of an inline string from `q` (past the opening quote), after
/// the content `acc` already read; ends just past the closing quote.
pub open spec fn inline_scan(s: Seq<u8>, q: int, acc: Seq<u8>) -> (Result<Seq<u8>, LexError>, int)
    decreases s.len() - q,
{
    if !(0 <= q < s.len()) {
        (Err(LexError::UnterminatedInlineString), q)
    } else {
        let b = s[q];
        if b == 0x22 {
            (Ok(acc), q + 1)
        } else if b == 0x0A {
            (Err(LexError::NewlineInInlineString), q)
        } else if b == 0x5C {
            if q + 1 >= s.len() {
                (Err(LexError::UnterminatedEscape), q)
            } else {
                match escape_byte(s[q + 1]) {
                    Some(t) => inline_scan(s, q + 2, acc.push(t)),
                    None => (Err(LexError::UnknownEscape { byte: s[q + 1] }), q),
                }
            }
        } else {
            let w = spec_utf8_char_len(b);
            if w > 1 {
                if q + w > s.len() {
                    (Err(LexError::TruncatedUtf8), q)
                } else {
                    inline_scan(s, q + w, acc + s.subrange(q, q + w))
                }
            } else {
                inline_scan(s, q + 1, acc + latin1_bytes(b))
            }
        }
    }
}

/// Inline string whose content starts at `q`.
pub open spec fn lex_inline(s: Seq<u8>, q: int) -> (Result<TokenModel, LexError>, int) {
    match inline_scan(s, q, seq![]) {
        (Ok(c), e) => if valid_utf8(c) {
            (Ok(TokenModel::Str(decode_utf8(c))), e)
        } else {
            (Err(LexError::InvalidUtf8 { offset: q as usize }), e)
        },
        (Err(x), e) => (Err(x), e),
    }
}

pub open spec fn triple_quote_at(s: Seq<u8>, r: int) -> bool {
    0 <= r && r + 2 < s.len() && s[r] == 0x22 && s[r + 1] == 0x22 && s[r + 2] == 0x22
}

/// First `"""` at or after `q`, or -1.
pub open spec fn find_triple_quote(s: Seq<u8>, q: int) -> int
    decreases s.len() - q,
{
    if !(0 <= q < s.len()) {
        -1
    } else if triple_quote_at(s, q) {
        q
    } else {
        find_triple_quote(s, q + 1)
    }
}

/// Multiline string whose body starts at `q`: the dedented body up to the
/// next `"""`.
pub open spec fn lex_multiline(s: Seq<u8>, q: int) -> (Result<TokenModel, LexError>, int) {
    let r = find_triple_quote(s, q);
    if r < 0 {
        (Err(LexError::UnterminatedMultilineString), s.len() as int)
    } else {
        let d = dedent_bytes(s.subrange(q, r));
        if valid_utf8(d) {
            (Ok(TokenModel::Str(decode_utf8(d))), r + 3)
        } else {
            (Err(LexError::InvalidUtf8 { offset: q as usize }), r + 3)
        }
    }
}

/// String starting at the quote at `p`.
pub open spec fn lex_string(s: Seq<u8>, p: int) -> (Result<TokenModel, LexError>, int) {
    if p + 2 < s.len() && s[p + 1] == 0x22 && s[p + 2] == 0x22 {
        lex_multiline(s, p + 3)
    } else {
        lex_inline(s, p + 1)
    }
}

/// First `]` at or after `q`, or -1.
pub open spec fn find_close_bracket(s: Seq<u8>, q: int) -> int
    decreases s.len() - q,
{
    if !(0 <= q < s.len()) {
        -1
    } else if s[q] == 0x5D {
        q
    } else {
        find_close_bracket(s, q + 1)
    }
}

pub open spec fn pipe_bracket_at(s: Seq<u8>, r: int) -> bool {
    0 <= r && r + 1 < s.len() && s[r] == 0x7C && s[r + 1] == 0x5D
}

/// First `|]` at or after `q`, or -1.
pub open spec fn find_pipe_bracket(s: Seq<u8>, q: int) -> int
    decreases s.len() - q,
{
    if !(0 <= q < s.len()) {
        -1
    } else if pipe_bracket_at(s, q) {
        q
    } else {
        find_pipe_bracket(s, q + 1)
    }
}

/// Nota `[…]` string whose text starts at `q`: everything up to the
/// next `]`, verbatim.
pub open spec fn lex_bracket_inline(s: Seq<u8>, q: int) -> (Result<TokenModel, LexError>, int) {
    let r = find_close_bracket(s, q);
    if r < 0 {
        (Err(LexError::UnterminatedBracketString), s.len() as int)
    } else {
        let c = s.subrange(q, r);
        if valid_utf8(c) {
            (Ok(TokenModel::Str(decode_utf8(c))), r + 1)
        } else {
            (Err(LexError::InvalidUtf8 { offset: q as usize }), r + 1)
        }
    }
}

/// Nota `[| … |]` string whose body starts at `q`: the dedented body up
/// to the next `|]`.
pub open spec fn lex_bracket_multiline(s: Seq<u8>, q: int) -> (Result<TokenModel, LexError>, int) {
    let r = find_pipe_bracket(s, q);
    if r < 0 {
        (Err(LexError::UnterminatedBracketMultiline), s.len() as int)
    } else {
        let d = dedent_bytes(s.subrange(q, r));
        if valid_utf8(d) {
            (Ok(TokenModel::Str(decode_utf8(d))), r + 2)
        } else {
            (Err(LexError::InvalidUtf8 { offset: q as usize }), r + 2)
        }
    }
}

/// Nota string starting at the `[` at `p`: `[| … |]` or `[…]`.
pub open spec fn lex_bracket_string(s: Seq<u8>, p: int) -> (Result<TokenModel, LexError>, int) {
    if p + 1 < s.len() && s[p + 1] == 0x7C {
        lex_bracket_multiline(s, p + 2)
    } else {
        lex_bracket_inline(s, p + 1)
    }
}

/// Nexus closer starting with the `|` at `p`.
pub open spec fn lex_pipe_close(s: Seq<u8>, p: int) -> (Result<TokenModel, LexError>, int) {
    if p + 1 >= s.len() {
        (Err(LexError::PipeAtEnd), p + 1)
    } else if s[p + 1] == 0x29 {
        (Ok(TokenModel::RParenPipe), p + 2)
    } else if s[p + 1] == 0x7D {
        (Ok(TokenModel::RBracePipe), p + 2)
    } else if s[p + 1] == 0x5D {
        (Ok(TokenModel::RBracketPipe), p + 2)
    } else {
        (Err(LexError::PipeFollowedBy { byte: s[p + 1] }), p + 1)
    }
}

/// Opener at `p` that becomes its `|` form when followed by `|` in nexus.
pub open spec fn lex_opener(
    d: Dialect,
    s: Seq<u8>,
    p: int,
    plain: TokenModel,
    piped: TokenModel,
) -> (Result<TokenModel, LexError>, int) {
    if d == Dialect::Nexus && p + 1 < s.len() && s[p + 1] == 0x7C {
        (Ok(piped), p + 2)
    } else {
        (Ok(plain), p + 1)
    }
}

/// The token starting at `p` (not whitespace, not a comment, in range)
/// and the position after it. `alias` says whether the token follows a
/// bind name (`@name`), the one place where `=` (a bind alias) is a token.
pub open spec fn lex_at(d: Dialect, s: Seq<u8>, p: int, alias: bool) -> (
    Result<TokenModel, LexError>,
    int,
) {
    let b = s[p];
    let nexus = d == Dialect::Nexus;
    if b == 0x28 {
        lex_opener(d, s, p, TokenModel::LParen, TokenModel::LParenPipe)
    } else if b == 0x29 {
        (Ok(TokenModel::RParen), p + 1)
    } else if b == 0x5B {
        if nexus {
            lex_opener(d, s, p, TokenModel::LBracket, TokenModel::LBracketPipe)
        } else {
            lex_bracket_string(s, p)
        }
    } else if b == 0x5D {
        (Ok(TokenModel::RBracket), p + 1)
    } else if (nexus && (b == 0x3C || b == 0x3E)) || ((b == 0x21 || b == 0x3C || b == 0x3E) && p
        + 1 < s.len() && s[p + 1] == 0x3D) || (b == 0x3D && !(nexus && alias)) {
        (Err(LexError::ReservedToken { byte: b, offset: p as usize }), p)
    } else if b == 0x3C {
        (Ok(TokenModel::LAngle), p + 1)
    } else if b == 0x3E {
        (Ok(TokenModel::RAngle), p + 1)
    } else if b == 0x3D {
        (Ok(TokenModel::Equals), p + 1)
    } else if b == 0x3A {
        (Ok(TokenModel::Colon), p + 1)
    } else if b == 0x22 {
        lex_string(s, p)
    } else if b == 0x23 {
        lex_bytes(s, p + 1)
    } else if b == 0x2D || is_digit(b) {
        lex_number(s, p)
    } else if nexus && b == 0x7B {
        lex_opener(d, s, p, TokenModel::LBrace, TokenModel::LBracePipe)
    } else if nexus && b == 0x7D {
        (Ok(TokenModel::RBrace), p + 1)
    } else if nexus && b == 0x7C {
        lex_pipe_close(s, p)
    } else if nexus && b == 0x7E {
        (Ok(TokenModel::Tilde), p + 1)
    } else if nexus && b == 0x40 {
        (Ok(TokenModel::At), p + 1)
    } else if nexus && b == 0x21 {
        (Ok(TokenModel::Bang), p + 1)
    } else if nexus && b == 0x3F {
        (Ok(TokenModel::Question), p + 1)
    } else if nexus && b == 0x2A {
        (Ok(TokenModel::Star), p + 1)
    } else if spec_ident_start(b) {
        lex_ident(s, p)
    } else {
        (Err(LexError::UnexpectedCharacter { byte: b, offset: p as usize, dialect: d }), p)
    }
}

/// What `next_token` does from position `p`: skip whitespace and
/// comments, then read one token (`None` at the end of the input); and
/// the position it leaves the lexer at.
pub open spec fn spec_next_token(d: Dialect, s: Seq<u8>, p: int, alias: bool) -> (
    Result<Option<TokenModel>, LexError>,
    int,
) {
    let q = skip_trivia(s, p);
    if q >= s.len() {
        (Ok(None), q)
    } else {
        match lex_at(d, s, q, alias) {
            (Ok(t), e) => (Ok(Some(t)), e),
            (Err(x), e) => (Err(x), e),
        }
    }
}

/// What the lexer remembers of the tokens just read: enough to know
/// whether an `=` stands in the bind-alias position `@a=@b`.
#[derive(Debug, Clone, Copy, PartialEq, Eq, Structural)]
pub enum AliasState {
    Other,
    /// The last token was `@`.
    AfterAt,
    /// The last two tokens were `@` and an identifier.
    AfterBindName,
}

/// The state after a lexing outcome.
pub open spec fn alias_after(st: AliasState, m: Result<Option<TokenModel>, LexError>) -> AliasState {
    match m {
        Ok(Some(TokenModel::At)) => AliasState::AfterAt,
        Ok(Some(TokenModel::Ident(_))) => if st == AliasState::AfterAt {
            AliasState::AfterBindName
        } else {
            AliasState::Other
        },
        _ => AliasState::Other,
    }
}

/// The next token from position `p` in state `st`, and where it ends.
pub open spec fn next_in_state(d: Dialect, s: Seq<u8>, p: int, st: AliasState) -> (
    Result<Option<TokenModel>, LexError>,
    int,
) {
    spec_next_token(d, s, p, st == AliasState::AfterBindName)
}

/// `r` is the outcome `m` of lexing the text `s` as
/// [`Lexer::next_token`] returns it: a lexing error becomes `Custom` with
/// its message ([`lex_error_text`]).
pub open spec fn public_outcome(
    r: Result<Option<Token>, Error>,
    m: Result<Option<TokenModel>, LexError>,
    s: Seq<u8>,
) -> bool {
    match m {
        Ok(None) => r matches Ok(None),
        Ok(Some(t)) => r matches Ok(Some(x)) && x@ == t,
        Err(e) => r matches Err(x) && x@ == ErrorModel::Custom(lex_error_text(s, e)),
    }
}

/// `r` is the executable form of the lexing outcome `m`.
pub open spec fn token_outcome(r: Result<Option<Token>, Error>, m: Result<Option<TokenModel>, LexError>) -> bool {
    match m {
        Ok(None) => r matches Ok(None),
        Ok(Some(t)) => r matches Ok(Some(x)) && x@ == t,
        Err(e) => r == Err::<Option<Token>, Error>(Error::Lex(e)),
    }
}

pub open spec fn token_step(r: Result<Token, Error>, m: Result<TokenModel, LexError>) -> bool {
    match m {
        Ok(t) => r matches Ok(x) && x@ == t,
        Err(e) => r == Err::<Token, Error>(Error::Lex(e)),
    }
}

// ---------- the lexer ----------

pub struct Lexer<'a> {
    input: &'a str,
    pos: usize,
    dialect: Dialect,
    alias: AliasState,
}

impl<'a> Lexer<'a> {
    #[verifier::type_invariant]
    closed spec fn inv(self) -> bool {
        &&& self.pos <= self.input.spec_bytes().len()
        &&& self.input.spec_bytes().len() <= usize::MAX
    }

    /// The UTF-8 bytes being tokenized.
    pub closed spec fn text(&self) -> Seq<u8> {
        self.input.spec_bytes()
    }

    /// Byte offset of the next unread byte.
    pub closed spec fn position(&self) -> int {
        self.pos as int
    }

    pub closed spec fn spec_dialect(&self) -> Dialect {
        self.dialect
    }

    /// What the lexer remembers of the tokens just read.
    pub closed spec fn alias_state(&self) -> AliasState {
        self.alias
    }

    /// Create a lexer in the default (Nota) dialect.
    pub fn new(input: &'a str) -> (l: Self)
        ensures
            l.text() == input.spec_bytes(),
            l.position() == 0,
            l.spec_dialect() == Dialect::Nota,
            l.alias_state() == AliasState::Other,
    {
        Self::with_dialect(input, Dialect::Nota)
    }

    /// Create a lexer for the nexus superset.
    pub fn nexus(input: &'a str) -> (l: Self)
        ensures
            l.text() == input.spec_bytes(),
            l.position() == 0,
            l.spec_dialect() == Dialect::Nexus,
            l.alias_state() == AliasState::Other,
    {
        Self::with_dialect(input, Dialect::Nexus)
    }

    pub fn with_dialect(input: &'a str, dialect: Dialect) -> (l: Self)
        ensures
            l.text() == input.spec_bytes(),
            l.position() == 0,
            l.spec_dialect() == dialect,
            l.alias_state() == AliasState::Other,
    {
        let _ = input.as_bytes().len();
        Self { input, pos: 0, dialect, alias: AliasState::Other }
    }

    pub fn dialect(&self) -> (d: Dialect)
        ensures
            d == self.spec_dialect(),
    {
        self.dialect
    }

    fn peek_byte(&self) -> (r: Option<u8>)
        ensures
            r == byte_at(self.text(), self.position()),
    {
        let b = self.input.as_bytes();
        if self.pos < b.len() {
            Some(b[self.pos])
        } else {
            None
        }
    }

    fn peek_byte_at(&self, offset: usize) -> (r: Option<u8>)
        ensures
            r == byte_at(self.text(), self.position() + offset),
    {
        proof {
            use_type_invariant(self);
        }
        let b = self.input.as_bytes();
        if offset < b.len() - self.pos {
            Some(b[self.pos + offset])
        } else {
            None
        }
    }

    fn skip_whitespace_and_comments(&mut self)
        ensures
            final(self).text() == old(self).text(),
            final(self).spec_dialect() == old(self).spec_dialect(),
            final(self).alias_state() == old(self).alias_state(),
            final(self).position() == skip_trivia(old(self).text(), old(self).position()),
    {
        proof {
            use_type_invariant(&*self);
        }
        let ghost s = self.text();
        let ghost p0 = self.position();
        loop
            invariant
                self.text() == s,
                s == old(self).text(),
                self.spec_dialect() == old(self).spec_dialect(),
                self.alias_state() == old(self).alias_state(),
                0 <= self.position() <= s.len(),
                skip_trivia(s, self.position()) == skip_trivia(s, p0),
            ensures
                self.text() == s,
                s == old(self).text(),
                self.spec_dialect() == old(self).spec_dialect(),
                self.alias_state() == old(self).alias_state(),
                self.position() == skip_trivia(s, p0),
            decreases s.len() - self.position(),
        {
            proof {
                use_type_invariant(&*self);
            }
            match self.peek_byte() {
                Some(b) if is_ascii_whitespace(b) => {
                    self.pos += 1;
                },
                Some(b) if b == 0x3B && self.peek_byte_at(1) == Some(0x3Bu8) => {
                    let ghost c0 = self.position();
                    proof {
                        lemma_comment_end(s, c0);
                    }
                    loop
                        invariant_except_break
                            c0 <= self.position() <= comment_end(s, c0),
                            comment_end(s, self.position()) == comment_end(s, c0),
                        invariant
                            self.text() == s,
                            s == old(self).text(),
                            self.spec_dialect() == old(self).spec_dialect(),
                            self.alias_state() == old(self).alias_state(),
                            0 <= c0 < s.len(),
                        ensures
                            self.text() == s,
                            self.spec_dialect() == old(self).spec_dialect(),
                            self.alias_state() == old(self).alias_state(),
                            self.position() == comment_end(s, c0),
                        decreases s.len() - self.position(),
                    {
                        proof {
                            use_type_invariant(&*self);
                        }
                        match self.peek_byte() {
                            Some(b) => {
                                proof {
                                    lemma_comment_end(s, self.position());
                                }
                                self.pos += 1;
                                if b == 0x0A {
                                    break;
                                }
                            },
                            None => {
                                break;
                            },
                        }
                    }
                },
                _ => {
                    break;
                },
            }
        }
    }

    /// Reads the next token: `None` at the end of the input. A lexing
    /// failure comes back as `Error::Custom` with its message.
    pub fn next_token(&mut self) -> (r: Result<Option<Token>, Error>)
        ensures
            final(self).text() == old(self).text(),
            final(self).spec_dialect() == old(self).spec_dialect(),
            public_outcome(
                r,
                next_in_state(
                    old(self).spec_dialect(),
                    old(self).text(),
                    old(self).position(),
                    old(self).alias_state(),
                ).0,
                old(self).text(),
            ),
            final(self).position() == next_in_state(
                old(self).spec_dialect(),
                old(self).text(),
                old(self).position(),
                old(self).alias_state(),
            ).1,
            final(self).alias_state() == alias_after(
                old(self).alias_state(),
                next_in_state(
                    old(self).spec_dialect(),
                    old(self).text(),
                    old(self).position(),
                    old(self).alias_state(),
                ).0,
            ),
            final(self).position() <= final(self).text().len(),
    {
        let r = match self.read_token() {
            Err(Error::Lex(e)) => Err(Error::Custom(lex_error_message(self.input.as_bytes(), e))),
            other => other,
        };
        let next = match &r {
            Ok(Some(Token::At)) => AliasState::AfterAt,
            Ok(Some(Token::Ident(_))) => if self.alias == AliasState::AfterAt {
                AliasState::AfterBindName
            } else {
                AliasState::Other
            },
            _ => AliasState::Other,
        };
        proof {
            use_type_invariant(&*self);
        }
        self.alias = next;
        r
    }

    fn read_token(&mut self) -> (r: Result<Option<Token>, Error>)
        ensures
            final(self).text() == old(self).text(),
            final(self).spec_dialect() == old(self).spec_dialect(),
            final(self).alias_state() == old(self).alias_state(),
            token_outcome(
                r,
                next_in_state(
                    old(self).spec_dialect(),
                    old(self).text(),
                    old(self).position(),
                    old(self).alias_state(),
                ).0,
            ),
            final(self).position() == next_in_state(
                old(self).spec_dialect(),
                old(self).text(),
                old(self).position(),
                old(self).alias_state(),
            ).1,
            final(self).position() <= final(self).text().len(),
    {
        self.skip_whitespace_and_comments();
        proof {
            use_type_invariant(&*self);
        }
        let b = match self.peek_byte() {
            Some(b) => b,
            None => {
                return Ok(None);
            },
        };
        let nexus = self.dialect == Dialect::Nexus;
        let r = if b == 0x28 {
            Ok(self.read_left_paren())
        } else if b == 0x29 {
            self.pos += 1;
            Ok(Token::RParen)
        } else if b == 0x5B {
            if nexus {
                Ok(self.read_left_bracket())
            } else {
                match self.read_bracket_string() {
                    Ok(x) => Ok(Token::Str(x)),
                    Err(e) => Err(e),
                }
            }
        } else if b == 0x5D {
            self.pos += 1;
            Ok(Token::RBracket)
        } else if (nexus && (b == 0x3C || b == 0x3E)) || ((b == 0x21 || b == 0x3C || b == 0x3E)
            && self.peek_byte_at(1) == Some(0x3Du8)) || (b == 0x3D && !(nexus && self.alias
            == AliasState::AfterBindName)) {
            Err(Error::Lex(LexError::ReservedToken { byte: b, offset: self.pos }))
        } else if b == 0x3C {
            self.pos += 1;
            Ok(Token::LAngle)
        } else if b == 0x3E {
            self.pos += 1;
            Ok(Token::RAngle)
        } else if b == 0x3D {
            self.pos += 1;
            Ok(Token::Equals)
        } else if b == 0x3A {
            self.pos += 1;
            Ok(Token::Colon)
        } else if b == 0x22 {
            self.read_string()
        } else if b == 0x23 {
            self.pos += 1;
            match self.read_bytes() {
                Ok(bytes) => Ok(Token::Bytes(bytes)),
                Err(e) => Err(e),
            }
        } else if b == 0x2D || (b >= 0x30 && b <= 0x39) {
            self.read_number()
        } else if nexus && b == 0x7B {
            Ok(self.read_left_brace())
        } else if nexus && b == 0x7D {
            self.pos += 1;
            Ok(Token::RBrace)
        } else if nexus && b == 0x7C {
            self.read_pipe_close()
        } else if nexus && b == 0x7E {
            self.pos += 1;
            Ok(Token::Tilde)
        } else if nexus && b == 0x40 {
            self.pos += 1;
            Ok(Token::At)
        } else if nexus && b == 0x21 {
            self.pos += 1;
            Ok(Token::Bang)
        } else if nexus && b == 0x3F {
            self.pos += 1;
            Ok(Token::Question)
        } else if nexus && b == 0x2A {
            self.pos += 1;
            Ok(Token::Star)
        } else if is_ident_start(b) {
            Ok(self.read_ident())
        } else {
            Err(
                Error::Lex(
                    LexError::UnexpectedCharacter { byte: b, offset: self.pos, dialect: self.dialect },
                ),
            )
        };
        proof {
            use_type_invariant(&*self);
        }
        match r {
            Ok(t) => Ok(Some(t)),
            Err(e) => Err(e),
        }
    }

    /// `(` → `LParen`, `(|` → `LParenPipe` (nexus-only).
    fn read_left_paren(&mut self) -> (t: Token)
        requires
            byte_at(old(self).text(), old(self).position()) == Some(0x28u8),
        ensures
            final(self).text() == old(self).text(),
            final(self).spec_dialect() == old(self).spec_dialect(),
            final(self).alias_state() == old(self).alias_state(),
            (Ok::<TokenModel, LexError>(t@), final(self).position()) == lex_opener(
                old(self).spec_dialect(),
                old(self).text(),
                old(self).position(),
                TokenModel::LParen,
                TokenModel::LParenPipe,
            ),
    {
        proof {
            use_type_invariant(&*self);
        }
        self.pos += 1;
        if self.dialect != Dialect::Nexus || self.peek_byte() != Some(0x7Cu8) {
            return Token::LParen;
        }
        self.pos += 1;
        Token::LParenPipe
    }

    /// `[` → `LBracket`, `[|` → `LBracketPipe` (nexus-only).
    fn read_left_bracket(&mut self) -> (t: Token)
        requires
            byte_at(old(self).text(), old(self).position()) == Some(0x5Bu8),
        ensures
            final(self).text() == old(self).text(),
            final(self).spec_dialect() == old(self).spec_dialect(),
            final(self).alias_state() == old(self).alias_state(),
            (Ok::<TokenModel, LexError>(t@), final(self).position()) == lex_opener(
                old(self).spec_dialect(),
                old(self).text(),
                old(self).position(),
                TokenModel::LBracket,
                TokenModel::LBracketPipe,
            ),
    {
        proof {
            use_type_invariant(&*self);
        }
        self.pos += 1;
        if self.dialect != Dialect::Nexus || self.peek_byte() != Some(0x7Cu8) {
            return Token::LBracket;
        }
        self.pos += 1;
        Token::LBracketPipe
    }

    /// `{` → `LBrace`, `{|` → `LBracePipe`; the caller has checked the
    /// dialect is nexus.
    fn read_left_brace(&mut self) -> (t: Token)
        requires
            byte_at(old(self).text(), old(self).position()) == Some(0x7Bu8),
            old(self).spec_dialect() == Dialect::Nexus,
        ensures
            final(self).text() == old(self).text(),
            final(self).spec_dialect() == old(self).spec_dialect(),
            final(self).alias_state() == old(self).alias_state(),
            (Ok::<TokenModel, LexError>(t@), final(self).position()) == lex_opener(
                old(self).spec_dialect(),
                old(self).text(),
                old(self).position(),
                TokenModel::LBrace,
                TokenModel::LBracePipe,
            ),
    {
        proof {
            use_type_invariant(&*self);
        }
        self.pos += 1;
        if self.peek_byte() != Some(0x7Cu8) {
            return Token::LBrace;
        }
        self.pos += 1;
        Token::LBracePipe
    }

    /// Decode a leading `|` into its closing-pair token (nexus-only).
    fn read_pipe_close(&mut self) -> (r: Result<Token, Error>)
        requires
            byte_at(old(self).text(), old(self).position()) == Some(0x7Cu8),
        ensures
            final(self).text() == old(self).text(),
            final(self).spec_dialect() == old(self).spec_dialect(),
            final(self).alias_state() == old(self).alias_state(),
            token_step(r, lex_pipe_close(old(self).text(), old(self).position()).0),
            final(self).position() == lex_pipe_close(old(self).text(), old(self).position()).1,
    {
        proof {
            use_type_invariant(&*self);
        }
        self.pos += 1;
        match self.peek_byte() {
            Some(b) => {
                if b == 0x29 {
                    self.pos += 1;
                    Ok(Token::RParenPipe)
                } else if b == 0x7D {
                    self.pos += 1;
                    Ok(Token::RBracePipe)
                } else if b == 0x5D {
                    self.pos += 1;
                    Ok(Token::RBracketPipe)
                } else {
                    Err(Error::Lex(LexError::PipeFollowedBy { byte: b }))
                }
            },
            None => Err(Error::Lex(LexError::PipeAtEnd)),
        }
    }

    fn read_ident(&mut self) -> (t: Token)
        requires
            old(self).position() < old(self).text().len(),
        ensures
            final(self).text() == old(self).text(),
            final(self).spec_dialect() == old(self).spec_dialect(),
            final(self).alias_state() == old(self).alias_state(),
            (Ok::<TokenModel, LexError>(t@), final(self).position()) == lex_ident(
                old(self).text(),
                old(self).position(),
            ),
    {
        proof {
            use_type_invariant(&*self);
        }
        let ghost s = self.text();
        let start = self.pos;
        let bytes = self.input.as_bytes();
        while self.pos < bytes.len() && is_ident_continue(bytes[self.pos])
            invariant
                bytes@ == s,
                self.text() == s,
                s == old(self).text(),
                self.spec_dialect() == old(self).spec_dialect(),
                self.alias_state() == old(self).alias_state(),
                start <= self.pos <= s.len(),
                span_end(s, self.position(), ident_continue_fn()) == span_end(
                    s,
                    start as int,
                    ident_continue_fn(),
                ),
                forall|k: int| start <= k < self.pos ==> spec_ident_continue(#[trigger] s[k]),
            decreases s.len() - self.pos,
        {
            self.pos += 1;
        }
        let end = self.pos;
        let ghost t = s.subrange(start as int, end as int);
        assert(all_ascii(t)) by {
            assert forall|k: int| 0 <= k < t.len() implies #[trigger] t[k] < 0x80 by {
                assert(spec_ident_continue(s[start + k]));
            }
        }
        if end - start == 4 && bytes[start] == 0x74 && bytes[start + 1] == 0x72 && bytes[start + 2]
            == 0x75 && bytes[start + 3] == 0x65 {
            assert(is_true_text(t)) by {
                assert(t =~= seq![0x74u8, 0x72u8, 0x75u8, 0x65u8]);
            }
            return Token::Bool(true);
        }
        if end - start == 5 && bytes[start] == 0x66 && bytes[start + 1] == 0x61 && bytes[start + 2]
            == 0x6C && bytes[start + 3] == 0x73 && bytes[start + 4] == 0x65 {
            assert(is_false_text(t)) by {
                assert(t =~= seq![0x66u8, 0x61u8, 0x6Cu8, 0x73u8, 0x65u8]);
            }
            return Token::Bool(false);
        }
        proof {
            if is_true_text(t) {
                assert(t[0] == 0x74 && t[1] == 0x72 && t[2] == 0x75 && t[3] == 0x65);
            }
            if is_false_text(t) {
                assert(t[0] == 0x66 && t[1] == 0x61 && t[2] == 0x6C && t[3] == 0x73 && t[4] == 0x65);
            }
        }
        Token::Ident(ascii_string(bytes, start, end))
    }

    /// Byte literal; the lexer stands just past `#`.
    fn read_bytes(&mut self) -> (r: Result<Vec<u8>, Error>)
        ensures
            final(self).text() == old(self).text(),
            final(self).spec_dialect() == old(self).spec_dialect(),
            final(self).alias_state() == old(self).alias_state(),
            token_step(
                match r {
                    Ok(b) => Ok(Token::Bytes(b)),
                    Err(e) => Err(e),
                },
                lex_bytes(old(self).text(), old(self).position()).0,
            ),
            final(self).position() == lex_bytes(old(self).text(), old(self).position()).1,
    {
        proof {
            use_type_invariant(&*self);
        }
        let ghost s = self.text();
        let start = self.pos;
        let bytes = self.input.as_bytes();
        while self.pos < bytes.len() && hex_digit(bytes[self.pos]).is_some()
            invariant
                bytes@ == s,
                self.text() == s,
                s == old(self).text(),
                self.spec_dialect() == old(self).spec_dialect(),
                self.alias_state() == old(self).alias_state(),
                start <= self.pos <= s.len(),
                span_end(s, self.position(), lower_hex_fn()) == span_end(
                    s,
                    start as int,
                    lower_hex_fn(),
                ),
                forall|k: int| start <= k < self.pos ==> is_lower_hex(#[trigger] s[k]),
            decreases s.len() - self.pos,
        {
            self.pos += 1;
        }
        let end = self.pos;
        let n = end - start;
        if n == 0 {
            return Err(Error::Lex(LexError::EmptyByteLiteral));
        }
        if n % 2 != 0 {
            return Err(Error::Lex(LexError::OddHexDigitCount { count: n }));
        }
        let ghost h = s.subrange(start as int, end as int);
        let mut out: Vec<u8> = Vec::new();
        let mut i: usize = start;
        while i < end
            invariant
                bytes@ == s,
                start <= i <= end <= s.len(),
                (i - start) % 2 == 0,
                (end - start) % 2 == 0,
                h == s.subrange(start as int, end as int),
                forall|k: int| start <= k < end ==> is_lower_hex(#[trigger] s[k]),
                out@ + hex_decode(s.subrange(i as int, end as int)) == hex_decode(h),
            decreases end - i,
        {
            let hi = hex_digit(bytes[i]);
            let lo = hex_digit(bytes[i + 1]);
            let (hi, lo) = match (hi, lo) {
                (Some(hi), Some(lo)) => (hi, lo),
                _ => {
                    assert(false);
                    return Err(Error::Lex(LexError::EmptyByteLiteral));
                },
            };
            let v: u8 = hi * 16 + lo;
            let ghost rest = s.subrange(i as int, end as int);
            proof {
                assert(rest.skip(2) =~= s.subrange(i + 2, end as int));
                assert(hex_decode(rest) == seq![(digit_value(rest[0]) * 16 + digit_value(rest[1])) as u8]
                    + hex_decode(rest.skip(2)));
            }
            out.push(v);
            i = i + 2;
            proof {
                assert(out@ + hex_decode(s.subrange(i as int, end as int)) =~= hex_decode(h));
            }
        }
        proof {
            assert(hex_decode(s.subrange(i as int, end as int)) =~= seq![]);
            assert(out@ =~= hex_decode(h));
        }
        Ok(out)
    }

    /// Read a quoted string. `"` → inline; `"""` → multiline.
    fn read_string(&mut self) -> (r: Result<Token, Error>)
        requires
            byte_at(old(self).text(), old(self).position()) == Some(0x22u8),
        ensures
            final(self).text() == old(self).text(),
            final(self).spec_dialect() == old(self).spec_dialect(),
            final(self).alias_state() == old(self).alias_state(),
            token_step(r, lex_string(old(self).text(), old(self).position()).0),
            final(self).position() == lex_string(old(self).text(), old(self).position()).1,
    {
        proof {
            use_type_invariant(&*self);
        }
        if self.peek_byte_at(1) == Some(0x22u8) && self.peek_byte_at(2) == Some(0x22u8) {
            self.pos += 3;
            match self.read_multiline_string() {
                Ok(s) => Ok(Token::Str(s)),
                Err(e) => Err(e),
            }
        } else {
            self.pos += 1;
            match self.read_inline_string() {
                Ok(s) => Ok(Token::Str(s)),
                Err(e) => Err(e),
            }
        }
    }

    /// Inline `" "` string; the lexer stands past the opening quote.
    /// Escapes `\\ \" \n \t \r`; a bare newline is an error.
    fn read_inline_string(&mut self) -> (r: Result<String, Error>)
        ensures
            final(self).text() == old(self).text(),
            final(self).spec_dialect() == old(self).spec_dialect(),
            final(self).alias_state() == old(self).alias_state(),
            token_step(
                match r {
                    Ok(x) => Ok(Token::Str(x)),
                    Err(e) => Err(e),
                },
                lex_inline(old(self).text(), old(self).position()).0,
            ),
            final(self).position() == lex_inline(old(self).text(), old(self).position()).1,
    {
        proof {
            use_type_invariant(&*self);
        }
        let ghost s = self.text();
        let ghost q0 = self.position();
        let start = self.pos;
        let bytes = self.input.as_bytes();
        let mut out: Vec<u8> = Vec::new();
        loop
            invariant
                bytes@ == s,
                self.text() == s,
                s == old(self).text(),
                self.spec_dialect() == old(self).spec_dialect(),
                self.alias_state() == old(self).alias_state(),
                start as int == q0,
                q0 == old(self).position(),
                s.len() <= usize::MAX,
                0 <= self.position() <= s.len(),
                inline_scan(s, self.position(), out@) == inline_scan(s, q0, seq![]),
            decreases s.len() - self.pos,
        {
            proof {
                use_type_invariant(&*self);
            }
            if self.pos >= bytes.len() {
                return Err(Error::Lex(LexError::UnterminatedInlineString));
            }
            let b = bytes[self.pos];
            if b == 0x22 {
                self.pos += 1;
                return match string_from_utf8(out) {
                    Some(x) => Ok(x),
                    None => Err(Error::Lex(LexError::InvalidUtf8 { offset: start })),
                };
            } else if b == 0x0A {
                return Err(Error::Lex(LexError::NewlineInInlineString));
            } else if b == 0x5C {
                if self.pos + 1 >= bytes.len() {
                    return Err(Error::Lex(LexError::UnterminatedEscape));
                }
                let esc = bytes[self.pos + 1];
                let decoded: u8 = if esc == 0x5C {
                    0x5C
                } else if esc == 0x22 {
                    0x22
                } else if esc == 0x6E {
                    0x0A
                } else if esc == 0x74 {
                    0x09
                } else if esc == 0x72 {
                    0x0D
                } else {
                    return Err(Error::Lex(LexError::UnknownEscape { byte: esc }));
                };
                assert(escape_byte(esc) == Some(decoded));
                let ghost before = out@;
                out.push(decoded);
                assert(out@ =~= before.push(decoded));
                self.pos += 2;
            } else {
                let ch_len = utf8_char_len(b);
                if ch_len > 1 {
                    if ch_len > bytes.len() - self.pos {
                        return Err(Error::Lex(LexError::TruncatedUtf8));
                    }
                    let ghost before = out@;
                    let ch_start = self.pos;
                    let mut k: usize = 0;
                    while k < ch_len
                        invariant
                            bytes@ == s,
                            ch_start + ch_len <= s.len(),
                            s.len() <= usize::MAX,
                            k <= ch_len,
                            out@ == before + s.subrange(ch_start as int, ch_start + k),
                        decreases ch_len - k,
                    {
                        out.push(bytes[ch_start + k]);
                        k = k + 1;
                        assert(out@ =~= before + s.subrange(ch_start as int, ch_start + k));
                    }
                    self.pos += ch_len;
                } else {
                    let ghost before = out@;
                    if b < 0x80 {
                        out.push(b);
                        assert(latin1_bytes(b) =~= seq![b]);
                        assert(out@ =~= before + latin1_bytes(b));
                    } else {
                        let b1: u8 = 0xC0u8 | (b >> 6u8);
                        let b2: u8 = 0x80u8 | (b & 0x3Fu8);
                        out.push(b1);
                        out.push(b2);
                        assert(latin1_bytes(b) =~= seq![b1, b2]);
                        assert(out@ =~= before + latin1_bytes(b));
                    }
                    self.pos += 1;
                }
            }
        }
    }

    /// Multiline `""" """` string; the lexer stands past the opening
    /// triple quote. The body is verbatim, then dedented.
    fn read_multiline_string(&mut self) -> (r: Result<String, Error>)
        ensures
            final(self).text() == old(self).text(),
            final(self).spec_dialect() == old(self).spec_dialect(),
            final(self).alias_state() == old(self).alias_state(),
            token_step(
                match r {
                    Ok(x) => Ok(Token::Str(x)),
                    Err(e) => Err(e),
                },
                lex_multiline(old(self).text(), old(self).position()).0,
            ),
            final(self).position() == lex_multiline(old(self).text(), old(self).position()).1,
    {
        proof {
            use_type_invariant(&*self);
        }
        let ghost s = self.text();
        let start = self.pos;
        let bytes = self.input.as_bytes();
        loop
            invariant
                bytes@ == s,
                self.text() == s,
                s == old(self).text(),
                self.spec_dialect() == old(self).spec_dialect(),
                self.alias_state() == old(self).alias_state(),
                start as int == old(self).position(),
                start <= self.pos <= s.len(),
                find_triple_quote(s, self.position()) == find_triple_quote(s, start as int),
            decreases s.len() - self.pos,
        {
            proof {
                use_type_invariant(&*self);
            }
            if self.pos >= bytes.len() {
                return Err(Error::Lex(LexError::UnterminatedMultilineString));
            }
            let b = bytes[self.pos];
            if b == 0x22 && self.peek_byte_at(1) == Some(0x22u8) && self.peek_byte_at(2) == Some(
                0x22u8,
            ) {
                let raw_end = self.pos;
                self.pos += 3;
                let body = dedent(bytes, start, raw_end);
                return match string_from_utf8(body) {
                    Some(x) => Ok(x),
                    None => Err(Error::Lex(LexError::InvalidUtf8 { offset: start })),
                };
            }
            self.pos += 1;
        }
    }

    /// Nota `[| … |]` or `[…]` string; the lexer stands on the `[`.
    fn read_bracket_string(&mut self) -> (r: Result<String, Error>)
        requires
            byte_at(old(self).text(), old(self).position()) == Some(0x5Bu8),
        ensures
            final(self).text() == old(self).text(),
            final(self).spec_dialect() == old(self).spec_dialect(),
            final(self).alias_state() == old(self).alias_state(),
            token_step(
                match r {
                    Ok(x) => Ok(Token::Str(x)),
                    Err(e) => Err(e),
                },
                lex_bracket_string(old(self).text(), old(self).position()).0,
            ),
            final(self).position() == lex_bracket_string(old(self).text(), old(self).position()).1,
    {
        proof {
            use_type_invariant(&*self);
        }
        let ghost s = self.text();
        let ghost p = self.position();
        let multiline = self.peek_byte_at(1) == Some(0x7Cu8);
        let bytes = self.input.as_bytes();
        if multiline {
            self.pos += 2;
            let start = self.pos;
            loop
                invariant
                    bytes@ == s,
                    self.text() == s,
                    s == old(self).text(),
                    p == old(self).position(),
                    p + 1 < s.len() && s[p + 1] == 0x7C,
                    self.spec_dialect() == old(self).spec_dialect(),
                    self.alias_state() == old(self).alias_state(),
                    start as int == p + 2,
                    start <= self.pos <= s.len(),
                    find_pipe_bracket(s, self.position()) == find_pipe_bracket(s, start as int),
                decreases s.len() - self.pos,
            {
                proof {
                    use_type_invariant(&*self);
                }
                if self.pos >= bytes.len() {
                    return Err(Error::Lex(LexError::UnterminatedBracketMultiline));
                }
                if bytes[self.pos] == 0x7C && self.peek_byte_at(1) == Some(0x5Du8) {
                    let raw_end = self.pos;
                    assert(find_pipe_bracket(s, raw_end as int) == raw_end as int);
                    self.pos += 2;
                    let body = dedent(bytes, start, raw_end);
                    return match string_from_utf8(body) {
                        Some(x) => Ok(x),
                        None => Err(Error::Lex(LexError::InvalidUtf8 { offset: start })),
                    };
                }
                self.pos += 1;
            }
        } else {
            self.pos += 1;
            let start = self.pos;
            loop
                invariant
                    bytes@ == s,
                    self.text() == s,
                    s == old(self).text(),
                    self.spec_dialect() == old(self).spec_dialect(),
                    self.alias_state() == old(self).alias_state(),
                    p == old(self).position(),
                    !(p + 1 < s.len() && s[p + 1] == 0x7C),
                    start as int == p + 1,
                    start <= self.pos <= s.len(),
                    find_close_bracket(s, self.position()) == find_close_bracket(s, start as int),
                decreases s.len() - self.pos,
            {
                proof {
                    use_type_invariant(&*self);
                }
                if self.pos >= bytes.len() {
                    return Err(Error::Lex(LexError::UnterminatedBracketString));
                }
                if bytes[self.pos] == 0x5D {
                    let raw_end = self.pos;
                    self.pos += 1;
                    let mut body: Vec<u8> = Vec::new();
                    let mut i: usize = start;
                    while i < raw_end
                        invariant
                            start <= i <= raw_end < s.len(),
                            bytes@ == s,
                            body@ == s.subrange(start as int, i as int),
                        decreases raw_end - i,
                    {
                        body.push(bytes[i]);
                        i = i + 1;
                        assert(body@ =~= s.subrange(start as int, i as int));
                    }
                    return match string_from_utf8(body) {
                        Some(x) => Ok(x),
                        None => Err(Error::Lex(LexError::InvalidUtf8 { offset: start })),
                    };
                }
                self.pos += 1;
            }
        }
    }

    /// Number starting at `-` or a digit.
    fn read_number(&mut self) -> (r: Result<Token, Error>)
        requires
            old(self).position() < old(self).text().len(),
            old(self).text()[old(self).position()] == 0x2D || is_digit(
                old(self).text()[old(self).position()],
            ),
        ensures
            final(self).text() == old(self).text(),
            final(self).spec_dialect() == old(self).spec_dialect(),
            final(self).alias_state() == old(self).alias_state(),
            token_step(r, lex_number(old(self).text(), old(self).position()).0),
            final(self).position() == lex_number(old(self).text(), old(self).position()).1,
    {
        proof {
            use_type_invariant(&*self);
        }
        let ghost s = self.text();
        let start = self.pos;
        let bytes = self.input.as_bytes();
        if bytes[self.pos] == 0x2D {
            self.pos += 1;
        }
        if self.pos < bytes.len() && bytes[self.pos] == 0x30 {
            if self.pos + 1 < bytes.len() {
                let b = bytes[self.pos + 1];
                if b == 0x78 || b == 0x58 {
                    self.pos += 2;
                    return self.read_radix_int(start, 16);
                } else if b == 0x62 || b == 0x42 {
                    self.pos += 2;
                    return self.read_radix_int(start, 2);
                } else if b == 0x6F || b == 0x4F {
                    self.pos += 2;
                    return self.read_radix_int(start, 8);
                }
            }
        }
        let ghost q = self.position();
        let mut saw_dot = false;
        let mut saw_exp = false;
        loop
            invariant
                bytes@ == s,
                self.text() == s,
                s == old(self).text(),
                self.spec_dialect() == old(self).spec_dialect(),
                self.alias_state() == old(self).alias_state(),
                start <= self.pos <= s.len(),
                start as int == old(self).position(),
                decimal_scan(s, self.position(), saw_dot, saw_exp) == decimal_scan(
                    s,
                    q,
                    false,
                    false,
                ),
                forall|k: int| start <= k < self.pos ==> #[trigger] s[k] < 0x80,
                s[start as int] < 0x80,
            ensures
                bytes@ == s,
                self.text() == s,
                s == old(self).text(),
                self.spec_dialect() == old(self).spec_dialect(),
                self.alias_state() == old(self).alias_state(),
                start <= self.pos <= s.len(),
                (self.position(), saw_dot, saw_exp) == decimal_scan(s, q, false, false),
                forall|k: int| start <= k < self.pos ==> #[trigger] s[k] < 0x80,
            decreases s.len() - self.pos,
        {
            proof {
                use_type_invariant(&*self);
            }
            if self.pos >= bytes.len() {
                break;
            }
            let b = bytes[self.pos];
            if (b >= 0x30 && b <= 0x39) || b == 0x5F {
                self.pos += 1;
            } else if b == 0x2E && !saw_dot && !saw_exp {
                saw_dot = true;
                self.pos += 1;
            } else if (b == 0x65 || b == 0x45) && !saw_exp {
                saw_exp = true;
                self.pos += 1;
                if self.pos < bytes.len() && (bytes[self.pos] == 0x2B || bytes[self.pos] == 0x2D) {
                    self.pos += 1;
                }
            } else {
                break;
            }
        }
        let end = self.pos;
        let cleaned = strip_underscores_exec(bytes, start, end);
        proof {
            lemma_filter_ascii(s.subrange(start as int, end as int));
        }
        if saw_dot || saw_exp {
            proof {
                assert(cleaned@.subrange(0, cleaned@.len() as int) =~= cleaned@);
            }
            if is_float_literal(cleaned.as_slice()) {
                let text = ascii_string(cleaned.as_slice(), 0, cleaned.len());
                Ok(Token::Float(text))
            } else {
                Err(Error::Lex(LexError::InvalidFloat { start, end }))
            }
        } else {
            match parse_int_literal(cleaned.as_slice(), 10) {
                Ok(t) => Ok(t),
                Err(k) => Err(Error::Lex(LexError::InvalidInteger { start, end, reason: k })),
            }
        }
    }

    /// Digits after a `0x` / `0b` / `0o` prefix; `start` is where the
    /// number (and its sign, if any) began.
    fn read_radix_int(&mut self, start: usize, radix: u32) -> (r: Result<Token, Error>)
        requires
            radix == 2 || radix == 8 || radix == 16,
            start < old(self).position(),
        ensures
            final(self).text() == old(self).text(),
            final(self).spec_dialect() == old(self).spec_dialect(),
            final(self).alias_state() == old(self).alias_state(),
            token_step(
                r,
                lex_radix(old(self).text(), start as int, old(self).position(), radix).0,
            ),
            final(self).position() == lex_radix(
                old(self).text(),
                start as int,
                old(self).position(),
                radix,
            ).1,
    {
        proof {
            use_type_invariant(&*self);
        }
        let ghost s = self.text();
        let digits_start = self.pos;
        let bytes = self.input.as_bytes();
        while self.pos < bytes.len() && (bytes[self.pos] == 0x5F || is_radix_digit(
            bytes[self.pos],
            radix,
        ))
            invariant
                bytes@ == s,
                self.text() == s,
                s == old(self).text(),
                self.spec_dialect() == old(self).spec_dialect(),
                self.alias_state() == old(self).alias_state(),
                digits_start <= self.pos <= s.len(),
                span_end(s, self.position(), radix_run_fn(radix)) == span_end(
                    s,
                    digits_start as int,
                    radix_run_fn(radix),
                ),
            decreases s.len() - self.pos,
        {
            self.pos += 1;
        }
        let end = self.pos;
        let cleaned = strip_underscores_exec(bytes, digits_start, end);
        let mut signed: Vec<u8> = Vec::new();
        if bytes[start] == 0x2D {
            signed.push(0x2D);
        }
        let ghost sign = signed@;
        let mut i: usize = 0;
        while i < cleaned.len()
            invariant
                i <= cleaned@.len(),
                signed@ == sign + cleaned@.take(i as int),
            decreases cleaned.len() - i,
        {
            signed.push(cleaned[i]);
            i = i + 1;
            assert(signed@ =~= sign + cleaned@.take(i as int));
        }
        assert(cleaned@.take(i as int) =~= cleaned@);
        assert(signed@ =~= signed_digits(s, start as int, digits_start as int, end as int));
        match parse_int_literal(signed.as_slice(), radix) {
            Ok(t) => Ok(t),
            Err(k) => Err(Error::Lex(LexError::InvalidRadixInt { radix, start, end, reason: k })),
        }
    }
}

pub fn is_ascii_whitespace(b: u8) -> (r: bool)
    ensures
        r == is_ascii_ws(b),
{
    b == 0x20 || b == 0x09 || b == 0x0A || b == 0x0C || b == 0x0D
}

proof fn lemma_filter_ascii(raw: Seq<u8>)
    requires
        all_ascii(raw),
    ensures
        all_ascii(strip_underscores(raw)),
    decreases raw.len(),
{
    if raw.len() > 0 {
        lemma_filter_ascii(raw.drop_last());
        reveal_with_fuel(Seq::<_>::filter, 1);
        let f = underscore_filter();
        assert(raw.filter(f) == if f(raw.last()) {
            raw.drop_last().filter(f).push(raw.last())
        } else {
            raw.drop_last().filter(f)
        });
    }
}

} // verus!
