//! Human-readable messages for errors, in the wording the format's users
//! see. Tokens and texts inside a message are shown the way Rust's
//! `Debug` shows them (`Ident("x")`, `'<'`, `"a b"`).

use vstd::prelude::*;
use vstd::string::StringExecFns;

use crate::error::{Error, ErrorModel, HeadKind, IntErrorKind, IntWidth, LexError};
use crate::lexer::{Dialect, Token, TokenModel};
use crate::ser::{chars_of, decimal_digits, hex_char, int_text, push_decimal};
use crate::text::{ascii_text, push_char};

verus! {

broadcast use vstd::string::group_string_axioms;

/// Lowercase hexadecimal digits of `n`, no leading zeros.
pub open spec fn lower_hex_digits(n: nat) -> Seq<char>
    decreases n,
{
    if n < 16 {
        seq![hex_char(n)]
    } else {
        lower_hex_digits(n / 16) + seq![hex_char(n % 16)]
    }
}

/// How `Debug` writes one character inside quotes `quote` (`"` for a
/// string, `'` for a char).
pub open spec fn escape_debug(c: char, quote: char) -> Seq<char> {
    if c == '\0' {
        seq!['\\', '0']
    } else if c == '\t' {
        seq!['\\', 't']
    } else if c == '\r' {
        seq!['\\', 'r']
    } else if c == '\n' {
        seq!['\\', 'n']
    } else if c == '\\' {
        seq!['\\', '\\']
    } else if c == quote {
        seq!['\\', quote]
    } else if c < ' ' || c == '\u{7f}' {
        seq!['\\', 'u', '{'] + lower_hex_digits((c as u32) as nat) + seq!['}']
    } else {
        seq![c]
    }
}

pub open spec fn debug_chars(s: Seq<char>, quote: char) -> Seq<char>
    decreases s.len(),
{
    if s.len() == 0 {
        seq![]
    } else {
        debug_chars(s.drop_last(), quote) + escape_debug(s.last(), quote)
    }
}

/// `Debug` of a string: quoted and escaped.
pub open spec fn debug_str(s: Seq<char>) -> Seq<char> {
    seq!['"'] + debug_chars(s, '"') + seq!['"']
}

/// `Debug` of a char: single-quoted and escaped.
pub open spec fn debug_char(c: char) -> Seq<char> {
    seq!['\''] + escape_debug(c, '\'') + seq!['\'']
}

/// Decimal values separated by `, `.
pub open spec fn byte_list(v: Seq<u8>) -> Seq<char>
    decreases v.len(),
{
    if v.len() == 0 {
        seq![]
    } else if v.len() == 1 {
        int_text(v[0] as int)
    } else {
        byte_list(v.drop_last()) + seq![',', ' '] + int_text(v.last() as int)
    }
}

pub open spec fn token_debug(t: TokenModel) -> Seq<char> {
    match t {
        TokenModel::LParen => "LParen"@,
        TokenModel::RParen => "RParen"@,
        TokenModel::LBracket => "LBracket"@,
        TokenModel::RBracket => "RBracket"@,
        TokenModel::LAngle => "LAngle"@,
        TokenModel::RAngle => "RAngle"@,
        TokenModel::Equals => "Equals"@,
        TokenModel::Colon => "Colon"@,
        TokenModel::Bool(b) => "Bool("@ + (if b {
            "true"@
        } else {
            "false"@
        }) + ")"@,
        TokenModel::Int(i) => "Int("@ + int_text(i as int) + ")"@,
        TokenModel::UInt(u) => "UInt("@ + int_text(u as int) + ")"@,
        TokenModel::Float(f) => "Float("@ + f + ")"@,
        TokenModel::Str(s) => "Str("@ + debug_str(s) + ")"@,
        TokenModel::Bytes(b) => "Bytes(["@ + byte_list(b) + "])"@,
        TokenModel::Ident(s) => "Ident("@ + debug_str(s) + ")"@,
        TokenModel::Tilde => "Tilde"@,
        TokenModel::At => "At"@,
        TokenModel::Bang => "Bang"@,
        TokenModel::Question => "Question"@,
        TokenModel::Star => "Star"@,
        TokenModel::LBrace => "LBrace"@,
        TokenModel::RBrace => "RBrace"@,
        TokenModel::LBracePipe => "LBracePipe"@,
        TokenModel::RBracePipe => "RBracePipe"@,
        TokenModel::LParenPipe => "LParenPipe"@,
        TokenModel::RParenPipe => "RParenPipe"@,
        TokenModel::LBracketPipe => "LBracketPipe"@,
        TokenModel::RBracketPipe => "RBracketPipe"@,
    }
}

pub open spec fn option_token_debug(t: Option<TokenModel>) -> Seq<char> {
    match t {
        Some(t) => "Some("@ + token_debug(t) + ")"@,
        None => "None"@,
    }
}

pub open spec fn head_kind_text(k: HeadKind) -> Seq<char> {
    match k {
        HeadKind::Struct => "struct"@,
        HeadKind::UnitStruct => "unit struct"@,
        HeadKind::Newtype => "newtype"@,
        HeadKind::Variant => "variant"@,
    }
}

/// What the schema calls the expected name in a mismatch message.
pub open spec fn mismatch_kind_text(k: HeadKind) -> Seq<char> {
    match k {
        HeadKind::Struct => "struct"@,
        HeadKind::UnitStruct => "unit struct"@,
        HeadKind::Newtype => "newtype struct"@,
        HeadKind::Variant => "variant"@,
    }
}

pub open spec fn width_text(w: IntWidth) -> Seq<char> {
    match w {
        IntWidth::I8 => "i8"@,
        IntWidth::I16 => "i16"@,
        IntWidth::I32 => "i32"@,
        IntWidth::I64 => "i64"@,
        IntWidth::U8 => "u8"@,
        IntWidth::U16 => "u16"@,
        IntWidth::U32 => "u32"@,
        IntWidth::U64 => "u64"@,
    }
}

/// The wording of Rust's integer parse errors.
pub open spec fn int_error_text(k: IntErrorKind) -> Seq<char> {
    match k {
        IntErrorKind::Empty => "cannot parse integer from empty string"@,
        IntErrorKind::InvalidDigit => "invalid digit found in string"@,
        IntErrorKind::PosOverflow => "number too large to fit in target type"@,
    }
}

pub open spec fn span_text(start: usize, end: usize) -> Seq<char> {
    "at byte offsets "@ + int_text(start as int) + ".."@ + int_text(end as int)
}

pub open spec fn lex_message(e: LexError) -> Seq<char> {
    match e {
        LexError::ReservedToken { byte, offset } => "reserved token "@ + debug_char(byte as char)
            + " at byte offset "@ + int_text(offset as int)
            + " — `<` `>` `<=` `>=` `!=` are reserved for comparison operators (design pending)"@,
        LexError::UnexpectedCharacter { byte, offset, dialect } => "unexpected character "@
            + debug_char(byte as char) + " at byte offset "@ + int_text(offset as int) + " ("@ + (
        match dialect {
            Dialect::Nota => "nota"@,
            Dialect::Nexus => "nexus"@,
        }) + " dialect)"@,
        LexError::PipeFollowedBy { byte } => "unexpected `|` followed by "@ + debug_char(
            byte as char,
        ) + " — expected `|)`, `|}`, or `|]`"@,
        LexError::PipeAtEnd => "unexpected `|` at end of input"@,
        LexError::UnterminatedInlineString => "unterminated inline string — missing `\"`"@,
        LexError::NewlineInInlineString =>
            "unexpected newline in inline `\" \"` string — use `\"\"\" \"\"\"` for multiline"@,
        LexError::UnterminatedEscape => "unterminated escape at end of input"@,
        LexError::UnknownEscape { byte } => "unknown escape `\\"@ + seq![byte as char]
            + "` in inline string — supported: `\\\\`, `\\\"`, `\\n`, `\\t`, `\\r`"@,
        LexError::TruncatedUtf8 => "truncated UTF-8 sequence in inline string"@,
        LexError::InvalidUtf8 { offset } => "string starting at byte offset "@ + int_text(
            offset as int,
        ) + " is not valid UTF-8"@,
        LexError::UnterminatedMultilineString =>
            "unterminated multiline string — missing `\"\"\"`"@,
        LexError::UnterminatedBracketString => "unterminated string — missing `]`"@,
        LexError::UnterminatedBracketMultiline => "unterminated multiline string — missing `|]`"@,
        LexError::EmptyByteLiteral => "`#` must be followed by hex digits"@,
        LexError::OddHexDigitCount { count } =>
            "byte literal must have even number of hex digits, got "@ + int_text(count as int),
        LexError::InvalidFloat { start, end } => "invalid float "@ + span_text(start, end)
            + ": invalid float literal"@,
        LexError::InvalidInteger { start, end, reason } => "invalid integer "@ + span_text(
            start,
            end,
        ) + ": "@ + int_error_text(reason),
        LexError::InvalidRadixInt { radix, start, end, reason } => "invalid radix-"@ + int_text(
            radix as int,
        ) + " int "@ + span_text(start, end) + ": "@ + int_error_text(reason),
    }
}

/// The literal `s[start..end]` as `Debug` shows a string (the bytes of a
/// number are ASCII, one character each).
pub open spec fn literal_text(s: Seq<u8>, start: usize, end: usize) -> Seq<char> {
    if start <= end <= s.len() {
        debug_str(ascii_text(s.subrange(start as int, end as int)))
    } else {
        debug_str(Seq::<char>::empty())
    }
}

/// The message of a lexing failure in the text `s`: a malformed number
/// is quoted from the text, every other failure worded by
/// [`lex_message`].
pub open spec fn lex_error_text(s: Seq<u8>, e: LexError) -> Seq<char> {
    match e {
        LexError::InvalidFloat { start, end } => "invalid float "@ + literal_text(s, start, end)
            + ": invalid float literal"@,
        LexError::InvalidInteger { start, end, reason } => "invalid integer "@ + literal_text(
            s,
            start,
            end,
        ) + ": "@ + int_error_text(reason),
        LexError::InvalidRadixInt { radix, start, end, reason } => "invalid radix-"@ + int_text(
            radix as int,
        ) + " int "@ + literal_text(s, start, end) + ": "@ + int_error_text(reason),
        _ => lex_message(e),
    }
}

/// The message of an error.
pub open spec fn error_message(e: ErrorModel) -> Seq<char> {
    match e {
        ErrorModel::Custom(m) => m,
        ErrorModel::UnitForbidden =>
            "unit type `()` is forbidden in nota — use a named variant like `Nil` or `None` for absent-value semantics"@,
        ErrorModel::StringContainsMultilineCloser =>
            "string literal cannot contain `|]` (would close a multiline string); no escape syntax exists yet"@,
        ErrorModel::NonFiniteFloat =>
            "non-finite floats (NaN, +inf, -inf) have no nota representation"@,
        ErrorModel::MapValueWithoutKey => "serialize_value called before serialize_key in map"@,
        ErrorModel::MultiFieldTupleStructForbidden { name, len } => "multi-field unnamed struct `"@
            + name + "` (len "@ + int_text(len as int)
            + ") — nota requires named-field structs; use `struct "@ + name
            + " { … }` instead of `struct "@ + name + "(…, …)`"@,
        ErrorModel::Lex(x) => lex_message(x),
        ErrorModel::UnexpectedEnd => "unexpected end of input"@,
        ErrorModel::ExpectedToken { expected, got } => "expected "@ + token_debug(expected)
            + ", got "@ + token_debug(got),
        ErrorModel::HeadNotPascalCase { kind, name } => head_kind_text(kind)
            + " name must be PascalCase (first char uppercase ASCII); got `"@ + name
            + "`. Type and variant names follow PascalCase; bare lowercase identifiers in head position are forbidden."@,
        ErrorModel::ExpectedHead { kind, got } => "expected "@ + head_kind_text(kind)
            + " name (PascalCase identifier), got "@ + token_debug(got),
        ErrorModel::NameMismatch { kind, expected, got } => "expected "@ + mismatch_kind_text(kind)
            + " `"@ + expected + "`, got `"@ + got + "`"@,
        ErrorModel::ExtraInput { got } => "extra input after value: "@ + token_debug(got),
        ErrorModel::IntegerTooLarge { value } => "integer "@ + int_text(value as int)
            + " exceeds i128::MAX; use a u128 field to hold it"@,
        ErrorModel::NegativeUnsigned { value } => "negative integer "@ + int_text(value as int)
            + " cannot be represented as unsigned"@,
        ErrorModel::ExpectedInteger { got } => "expected integer, got "@ + token_debug(got),
        ErrorModel::SignedOutOfRange { value, width } => int_text(value as int) + " out of "@
            + width_text(width) + " range"@,
        ErrorModel::UnsignedOutOfRange { value, width } => int_text(value as int) + " out of "@
            + width_text(width) + " range"@,
        ErrorModel::ExpectedBool { got } => "expected bool, got "@ + token_debug(got),
        ErrorModel::ExpectedFloat { got } => "expected float, got "@ + token_debug(got),
        ErrorModel::ExpectedCharText { got } => "expected string for char, got "@ + token_debug(
            got,
        ),
        ErrorModel::EmptyCharText { from_ident } => "empty "@ + (if from_ident {
            "identifier"@
        } else {
            "string"@
        }) + " for char"@,
        ErrorModel::ExpectedSingleChar { text } => "expected single char, got "@ + debug_str(text),
        ErrorModel::ExpectedString { got } => "expected string, got "@ + token_debug(got),
        ErrorModel::ExpectedBytes { got } => "expected bytes, got "@ + token_debug(got),
        ErrorModel::ExpectedIdentAfterAt { got } => "expected identifier after `@`, got "@
            + token_debug(got),
        ErrorModel::ExpectedEnumVariant { got } => "expected enum variant, got "@
            + option_token_debug(got),
        ErrorModel::ExpectedIdentifier { got } => "expected identifier, got "@ + token_debug(got),
        ErrorModel::ExpectedMapEntry { got } => "expected `(` to open map entry, got "@
            + option_token_debug(got),
    }
}

// ---------- writing the pieces ----------

fn push_str(out: &mut String, s: &str)
    ensures
        final(out)@ == old(out)@ + s@,
{
    out.append(s);
}

fn push_int(out: &mut String, v: i128)
    ensures
        final(out)@ == old(out)@ + int_text(v as int),
{
    let ghost w = out@;
    if v < 0 {
        push_char(out, '-');
        let magnitude: u128 = if v == i128::MIN {
            0x8000_0000_0000_0000_0000_0000_0000_0000u128
        } else {
            (0 - v) as u128
        };
        push_decimal(out, magnitude);
        assert(out@ =~= w + int_text(v as int));
    } else {
        push_decimal(out, v as u128);
    }
}

fn push_uint(out: &mut String, v: u128)
    ensures
        final(out)@ == old(out)@ + int_text(v as int),
{
    push_decimal(out, v);
}

fn push_lower_hex(out: &mut String, n: u32)
    ensures
        final(out)@ == old(out)@ + lower_hex_digits(n as nat),
    decreases n,
{
    if n >= 16 {
        push_lower_hex(out, n / 16);
    }
    let d: u32 = n % 16;
    let c = if d < 10 {
        ((d as u8) + 48) as char
    } else {
        ((d as u8) + 87) as char
    };
    assert(c == hex_char(d as nat));
    push_char(out, c);
}

fn push_escaped(out: &mut String, c: char, quote: char)
    ensures
        final(out)@ == old(out)@ + escape_debug(c, quote),
{
    let ghost w = out@;
    if c == '\0' {
        push_char(out, '\\');
        push_char(out, '0');
    } else if c == '\t' {
        push_char(out, '\\');
        push_char(out, 't');
    } else if c == '\r' {
        push_char(out, '\\');
        push_char(out, 'r');
    } else if c == '\n' {
        push_char(out, '\\');
        push_char(out, 'n');
    } else if c == '\\' {
        push_char(out, '\\');
        push_char(out, '\\');
    } else if c == quote {
        push_char(out, '\\');
        push_char(out, quote);
    } else if c < ' ' || c == '\u{7f}' {
        push_char(out, '\\');
        push_char(out, 'u');
        push_char(out, '{');
        push_lower_hex(out, c as u32);
        push_char(out, '}');
    } else {
        push_char(out, c);
    }
    assert(out@ =~= w + escape_debug(c, quote));
}

fn push_debug_str(out: &mut String, s: &str)
    ensures
        final(out)@ == old(out)@ + debug_str(s@),
{
    let ghost w = out@;
    let chars = chars_of(s);
    push_char(out, '"');
    let mut i: usize = 0;
    while i < chars.len()
        invariant
            chars@ == s@,
            i <= chars@.len(),
            out@ == w + seq!['"'] + debug_chars(chars@.take(i as int), '"'),
        decreases chars.len() - i,
    {
        push_escaped(out, chars[i], '"');
        proof {
            let t = chars@.take(i + 1);
            assert(t.drop_last() =~= chars@.take(i as int));
            assert(t.last() == chars@[i as int]);
        }
        i = i + 1;
    }
    assert(chars@.take(i as int) =~= s@);
    push_char(out, '"');
    assert(out@ =~= w + debug_str(s@));
}

fn push_literal(out: &mut String, s: &[u8], start: usize, end: usize)
    ensures
        final(out)@ == old(out)@ + literal_text(s@, start, end),
{
    let ghost w = out@;
    push_char(out, '"');
    if start <= end && end <= s.len() {
        let ghost b = s@.subrange(start as int, end as int);
        let mut i: usize = start;
        while i < end
            invariant
                start <= i <= end <= s@.len(),
                b == s@.subrange(start as int, end as int),
                out@ == w + seq!['"'] + debug_chars(ascii_text(b.take(i - start)), '"'),
            decreases end - i,
        {
            let c = s[i] as char;
            push_escaped(out, c, '"');
            proof {
                let t = ascii_text(b.take(i + 1 - start));
                assert(t.drop_last() =~= ascii_text(b.take(i - start)));
                assert(t.last() == c);
            }
            i = i + 1;
        }
        assert(b.take(i - start) =~= b);
    } else {
        assert(debug_chars(Seq::<char>::empty(), '"') =~= Seq::<char>::empty());
    }
    push_char(out, '"');
    assert(out@ =~= w + literal_text(s@, start, end));
}

/// The message of a lexing failure in the text `s`; see
/// [`lex_error_text`].
pub fn lex_error_message(s: &[u8], e: LexError) -> (r: String)
    ensures
        r@ == lex_error_text(s@, e),
{
    match e {
        LexError::InvalidFloat { start, end } => {
            let mut out = String::new();
            push_str(&mut out, "invalid float ");
            push_literal(&mut out, s, start, end);
            push_str(&mut out, ": invalid float literal");
            out
        },
        LexError::InvalidInteger { start, end, reason } => {
            let mut out = String::new();
            push_str(&mut out, "invalid integer ");
            push_literal(&mut out, s, start, end);
            push_str(&mut out, ": ");
            push_int_error(&mut out, reason);
            out
        },
        LexError::InvalidRadixInt { radix, start, end, reason } => {
            let mut out = String::new();
            push_str(&mut out, "invalid radix-");
            push_uint(&mut out, radix as u128);
            push_str(&mut out, " int ");
            push_literal(&mut out, s, start, end);
            push_str(&mut out, ": ");
            push_int_error(&mut out, reason);
            out
        },
        _ => Error::Lex(e).message(),
    }
}

fn push_debug_char(out: &mut String, c: char)
    ensures
        final(out)@ == old(out)@ + debug_char(c),
{
    let ghost w = out@;
    push_char(out, '\'');
    push_escaped(out, c, '\'');
    push_char(out, '\'');
    assert(out@ =~= w + debug_char(c));
}

fn push_byte_list(out: &mut String, v: &Vec<u8>)
    ensures
        final(out)@ == old(out)@ + byte_list(v@),
{
    let ghost w = out@;
    let mut i: usize = 0;
    while i < v.len()
        invariant
            i <= v@.len(),
            out@ == w + byte_list(v@.take(i as int)),
        decreases v.len() - i,
    {
        let ghost before = out@;
        if i > 0 {
            push_char(out, ',');
            push_char(out, ' ');
        }
        push_uint(out, v[i] as u128);
        proof {
            let t = v@.take(i + 1);
            assert(t.drop_last() =~= v@.take(i as int));
            assert(t.last() == v@[i as int]);
            if i == 0 {
                assert(v@.take(0) =~= seq![]);
                assert(out@ =~= w + byte_list(t));
            } else {
                assert(out@ =~= before + seq![',', ' '] + int_text(v@[i as int] as int));
            }
        }
        i = i + 1;
    }
    assert(v@.take(i as int) =~= v@);
}

fn push_token_debug(out: &mut String, t: &Token)
    ensures
        final(out)@ == old(out)@ + token_debug(t@),
{
    let ghost w = out@;
    match t {
        Token::LParen => push_str(out, "LParen"),
        Token::RParen => push_str(out, "RParen"),
        Token::LBracket => push_str(out, "LBracket"),
        Token::RBracket => push_str(out, "RBracket"),
        Token::LAngle => push_str(out, "LAngle"),
        Token::RAngle => push_str(out, "RAngle"),
        Token::Equals => push_str(out, "Equals"),
        Token::Colon => push_str(out, "Colon"),
        Token::Bool(b) => {
            push_str(out, "Bool(");
            if *b {
                push_str(out, "true");
            } else {
                push_str(out, "false");
            }
            push_str(out, ")");
            assert(out@ =~= w + token_debug(t@));
        },
        Token::Int(i) => {
            push_str(out, "Int(");
            push_int(out, *i);
            push_str(out, ")");
            assert(out@ =~= w + token_debug(t@));
        },
        Token::UInt(u) => {
            push_str(out, "UInt(");
            push_uint(out, *u);
            push_str(out, ")");
            assert(out@ =~= w + token_debug(t@));
        },
        Token::Float(f) => {
            push_str(out, "Float(");
            push_str(out, f.as_str());
            push_str(out, ")");
            assert(out@ =~= w + token_debug(t@));
        },
        Token::Str(s) => {
            push_str(out, "Str(");
            push_debug_str(out, s.as_str());
            push_str(out, ")");
            assert(out@ =~= w + token_debug(t@));
        },
        Token::Bytes(b) => {
            push_str(out, "Bytes([");
            push_byte_list(out, b);
            push_str(out, "])");
            assert(out@ =~= w + token_debug(t@));
        },
        Token::Ident(s) => {
            push_str(out, "Ident(");
            push_debug_str(out, s.as_str());
            push_str(out, ")");
            assert(out@ =~= w + token_debug(t@));
        },
        Token::Tilde => push_str(out, "Tilde"),
        Token::At => push_str(out, "At"),
        Token::Bang => push_str(out, "Bang"),
        Token::Question => push_str(out, "Question"),
        Token::Star => push_str(out, "Star"),
        Token::LBrace => push_str(out, "LBrace"),
        Token::RBrace => push_str(out, "RBrace"),
        Token::LBracePipe => push_str(out, "LBracePipe"),
        Token::RBracePipe => push_str(out, "RBracePipe"),
        Token::LParenPipe => push_str(out, "LParenPipe"),
        Token::RParenPipe => push_str(out, "RParenPipe"),
        Token::LBracketPipe => push_str(out, "LBracketPipe"),
        Token::RBracketPipe => push_str(out, "RBracketPipe"),
    }
}

fn push_option_token_debug(out: &mut String, t: &Option<Token>)
    ensures
        final(out)@ == old(out)@ + option_token_debug(crate::error::option_token_model(*t)),
{
    let ghost w = out@;
    match t {
        Some(x) => {
            push_str(out, "Some(");
            push_token_debug(out, x);
            push_str(out, ")");
            assert(out@ =~= w + option_token_debug(crate::error::option_token_model(*t)));
        },
        None => push_str(out, "None"),
    }
}

fn push_span(out: &mut String, start: usize, end: usize)
    ensures
        final(out)@ == old(out)@ + span_text(start, end),
{
    let ghost w = out@;
    push_str(out, "at byte offsets ");
    push_uint(out, start as u128);
    push_str(out, "..");
    push_uint(out, end as u128);
    assert(out@ =~= w + span_text(start, end));
}

fn push_int_error(out: &mut String, k: IntErrorKind)
    ensures
        final(out)@ == old(out)@ + int_error_text(k),
{
    match k {
        IntErrorKind::Empty => push_str(out, "cannot parse integer from empty string"),
        IntErrorKind::InvalidDigit => push_str(out, "invalid digit found in string"),
        IntErrorKind::PosOverflow => push_str(out, "number too large to fit in target type"),
    }
}

fn push_head_kind(out: &mut String, k: HeadKind)
    ensures
        final(out)@ == old(out)@ + head_kind_text(k),
{
    match k {
        HeadKind::Struct => push_str(out, "struct"),
        HeadKind::UnitStruct => push_str(out, "unit struct"),
        HeadKind::Newtype => push_str(out, "newtype"),
        HeadKind::Variant => push_str(out, "variant"),
    }
}

fn push_width(out: &mut String, w: IntWidth)
    ensures
        final(out)@ == old(out)@ + width_text(w),
{
    match w {
        IntWidth::I8 => push_str(out, "i8"),
        IntWidth::I16 => push_str(out, "i16"),
        IntWidth::I32 => push_str(out, "i32"),
        IntWidth::I64 => push_str(out, "i64"),
        IntWidth::U8 => push_str(out, "u8"),
        IntWidth::U16 => push_str(out, "u16"),
        IntWidth::U32 => push_str(out, "u32"),
        IntWidth::U64 => push_str(out, "u64"),
    }
}

fn push_lex_message(out: &mut String, e: LexError)
    ensures
        final(out)@ == old(out)@ + lex_message(e),
{
    let ghost w = out@;
    match e {
        LexError::ReservedToken { byte, offset } => {
            push_str(out, "reserved token ");
            push_debug_char(out, byte as char);
            push_str(out, " at byte offset ");
            push_uint(out, offset as u128);
            push_str(
                out,
                " — `<` `>` `<=` `>=` `!=` are reserved for comparison operators (design pending)",
            );
        },
        LexError::UnexpectedCharacter { byte, offset, dialect } => {
            push_str(out, "unexpected character ");
            push_debug_char(out, byte as char);
            push_str(out, " at byte offset ");
            push_uint(out, offset as u128);
            push_str(out, " (");
            match dialect {
                Dialect::Nota => push_str(out, "nota"),
                Dialect::Nexus => push_str(out, "nexus"),
            }
            push_str(out, " dialect)");
        },
        LexError::PipeFollowedBy { byte } => {
            push_str(out, "unexpected `|` followed by ");
            push_debug_char(out, byte as char);
            push_str(out, " — expected `|)`, `|}`, or `|]`");
        },
        LexError::PipeAtEnd => push_str(out, "unexpected `|` at end of input"),
        LexError::UnterminatedInlineString => push_str(
            out,
            "unterminated inline string — missing `\"`",
        ),
        LexError::NewlineInInlineString => push_str(
            out,
            "unexpected newline in inline `\" \"` string — use `\"\"\" \"\"\"` for multiline",
        ),
        LexError::UnterminatedEscape => push_str(out, "unterminated escape at end of input"),
        LexError::UnknownEscape { byte } => {
            push_str(out, "unknown escape `\\");
            push_char(out, byte as char);
            push_str(out, "` in inline string — supported: `\\\\`, `\\\"`, `\\n`, `\\t`, `\\r`");
        },
        LexError::TruncatedUtf8 => push_str(out, "truncated UTF-8 sequence in inline string"),
        LexError::InvalidUtf8 { offset } => {
            push_str(out, "string starting at byte offset ");
            push_uint(out, offset as u128);
            push_str(out, " is not valid UTF-8");
        },
        LexError::UnterminatedMultilineString => push_str(
            out,
            "unterminated multiline string — missing `\"\"\"`",
        ),
        LexError::UnterminatedBracketString => push_str(out, "unterminated string — missing `]`"),
        LexError::UnterminatedBracketMultiline => push_str(
            out,
            "unterminated multiline string — missing `|]`",
        ),
        LexError::EmptyByteLiteral => push_str(out, "`#` must be followed by hex digits"),
        LexError::OddHexDigitCount { count } => {
            push_str(out, "byte literal must have even number of hex digits, got ");
            push_uint(out, count as u128);
        },
        LexError::InvalidFloat { start, end } => {
            push_str(out, "invalid float ");
            push_span(out, start, end);
            push_str(out, ": invalid float literal");
        },
        LexError::InvalidInteger { start, end, reason } => {
            push_str(out, "invalid integer ");
            push_span(out, start, end);
            push_str(out, ": ");
            push_int_error(out, reason);
        },
        LexError::InvalidRadixInt { radix, start, end, reason } => {
            push_str(out, "invalid radix-");
            push_uint(out, radix as u128);
            push_str(out, " int ");
            push_span(out, start, end);
            push_str(out, ": ");
            push_int_error(out, reason);
        },
    }
    assert(out@ =~= w + lex_message(e));
}

fn message_with_token(prefix: &str, t: &Token) -> (r: String)
    ensures
        r@ == prefix@ + token_debug(t@),
{
    let mut out = String::new();
    push_str(&mut out, prefix);
    push_token_debug(&mut out, t);
    out
}

impl Error {
    /// The error's message, as users of the format read it.
    pub fn message(&self) -> (r: String)
        ensures
            r@ == error_message(self@),
    {
        let mut out = String::new();
        let ghost w = out@;
        match self {
            Error::Custom(m) => {
                return m.clone();
            },
            Error::UnitForbidden => push_str(
                &mut out,
                "unit type `()` is forbidden in nota — use a named variant like `Nil` or `None` for absent-value semantics",
            ),
            Error::StringContainsMultilineCloser => push_str(
                &mut out,
                "string literal cannot contain `|]` (would close a multiline string); no escape syntax exists yet",
            ),
            Error::NonFiniteFloat => push_str(
                &mut out,
                "non-finite floats (NaN, +inf, -inf) have no nota representation",
            ),
            Error::MapValueWithoutKey => push_str(
                &mut out,
                "serialize_value called before serialize_key in map",
            ),
            Error::MultiFieldTupleStructForbidden { name, len } => {
                push_str(&mut out, "multi-field unnamed struct `");
                push_str(&mut out, name.as_str());
                push_str(&mut out, "` (len ");
                push_uint(&mut out, *len as u128);
                push_str(&mut out, ") — nota requires named-field structs; use `struct ");
                push_str(&mut out, name.as_str());
                push_str(&mut out, " { … }` instead of `struct ");
                push_str(&mut out, name.as_str());
                push_str(&mut out, "(…, …)`");
            },
            Error::Lex(x) => push_lex_message(&mut out, *x),
            Error::UnexpectedEnd => push_str(&mut out, "unexpected end of input"),
            Error::ExpectedToken { expected, got } => {
                push_str(&mut out, "expected ");
                push_token_debug(&mut out, expected);
                push_str(&mut out, ", got ");
                push_token_debug(&mut out, got);
            },
            Error::HeadNotPascalCase { kind, name } => {
                push_head_kind(&mut out, *kind);
                push_str(&mut out, " name must be PascalCase (first char uppercase ASCII); got `");
                push_str(&mut out, name.as_str());
                push_str(
                    &mut out,
                    "`. Type and variant names follow PascalCase; bare lowercase identifiers in head position are forbidden.",
                );
            },
            Error::ExpectedHead { kind, got } => {
                push_str(&mut out, "expected ");
                push_head_kind(&mut out, *kind);
                push_str(&mut out, " name (PascalCase identifier), got ");
                push_token_debug(&mut out, got);
            },
            Error::NameMismatch { kind, expected, got } => {
                push_str(&mut out, "expected ");
                match kind {
                    HeadKind::Struct => push_str(&mut out, "struct"),
                    HeadKind::UnitStruct => push_str(&mut out, "unit struct"),
                    HeadKind::Newtype => push_str(&mut out, "newtype struct"),
                    HeadKind::Variant => push_str(&mut out, "variant"),
                }
                push_str(&mut out, " `");
                push_str(&mut out, expected.as_str());
                push_str(&mut out, "`, got `");
                push_str(&mut out, got.as_str());
                push_str(&mut out, "`");
            },
            Error::ExtraInput { got } => {
                return message_with_token("extra input after value: ", got);
            },
            Error::IntegerTooLarge { value } => {
                push_str(&mut out, "integer ");
                push_uint(&mut out, *value);
                push_str(&mut out, " exceeds i128::MAX; use a u128 field to hold it");
            },
            Error::NegativeUnsigned { value } => {
                push_str(&mut out, "negative integer ");
                push_int(&mut out, *value);
                push_str(&mut out, " cannot be represented as unsigned");
            },
            Error::ExpectedInteger { got } => {
                return message_with_token("expected integer, got ", got);
            },
            Error::SignedOutOfRange { value, width } => {
                push_int(&mut out, *value);
                push_str(&mut out, " out of ");
                push_width(&mut out, *width);
                push_str(&mut out, " range");
            },
            Error::UnsignedOutOfRange { value, width } => {
                push_uint(&mut out, *value);
                push_str(&mut out, " out of ");
                push_width(&mut out, *width);
                push_str(&mut out, " range");
            },
            Error::ExpectedBool { got } => {
                return message_with_token("expected bool, got ", got);
            },
            Error::ExpectedFloat { got } => {
                return message_with_token("expected float, got ", got);
            },
            Error::ExpectedCharText { got } => {
                return message_with_token("expected string for char, got ", got);
            },
            Error::EmptyCharText { from_ident } => {
                push_str(&mut out, "empty ");
                if *from_ident {
                    push_str(&mut out, "identifier");
                } else {
                    push_str(&mut out, "string");
                }
                push_str(&mut out, " for char");
            },
            Error::ExpectedSingleChar { text } => {
                push_str(&mut out, "expected single char, got ");
                push_debug_str(&mut out, text.as_str());
            },
            Error::ExpectedString { got } => {
                return message_with_token("expected string, got ", got);
            },
            Error::ExpectedBytes { got } => {
                return message_with_token("expected bytes, got ", got);
            },
            Error::ExpectedIdentAfterAt { got } => {
                return message_with_token("expected identifier after `@`, got ", got);
            },
            Error::ExpectedEnumVariant { got } => {
                push_str(&mut out, "expected enum variant, got ");
                push_option_token_debug(&mut out, got);
            },
            Error::ExpectedIdentifier { got } => {
                return message_with_token("expected identifier, got ", got);
            },
            Error::ExpectedMapEntry { got } => {
                push_str(&mut out, "expected `(` to open map entry, got ");
                push_option_token_debug(&mut out, got);
            },
        }
        assert(out@ =~= error_message(self@));
        out
    }
}

/// A failure as the format's users receive it: `Custom` with the
/// failure's message. The structured variants describe a failure of the
/// lexer or the reader; what these return is this form.
pub open spec fn custom(e: ErrorModel) -> ErrorModel {
    ErrorModel::Custom(error_message(e))
}

impl Error {
    /// The error as `Custom` with its message (see [`custom`]).
    pub fn into_custom(self) -> (r: Error)
        ensures
            r@ == custom(self@),
    {
        Error::Custom(self.message())
    }
}

} // verus!
