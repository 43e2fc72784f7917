//! Byte and character classes shared by the lexer and the serializer,
//! plus the conversions between byte runs and `String`s.

use vstd::prelude::*;
use vstd::utf8::*;

verus! {

/// `u8::is_ascii_whitespace`: space, tab, line feed, form feed, carriage return.
pub open spec fn is_ascii_ws(b: u8) -> bool {
    b == 0x20 || b == 0x09 || b == 0x0A || b == 0x0C || b == 0x0D
}

pub open spec fn is_digit(b: u8) -> bool {
    0x30 <= b <= 0x39
}

pub open spec fn is_ascii_upper(b: u8) -> bool {
    0x41 <= b <= 0x5A
}

pub open spec fn is_ascii_lower(b: u8) -> bool {
    0x61 <= b <= 0x7A
}

/// First byte of a bare identifier: ASCII letter or `_`.
pub open spec fn spec_ident_start(b: u8) -> bool {
    is_ascii_upper(b) || is_ascii_lower(b) || b == 0x5F
}

/// Later bytes of a bare identifier: ASCII letter, digit, `_` or `-`.
pub open spec fn spec_ident_continue(b: u8) -> bool {
    spec_ident_start(b) || is_digit(b) || b == 0x2D
}

/// Digits accepted after a `0x` / `0b` / `0o` prefix.
pub open spec fn spec_radix_digit(b: u8, radix: u32) -> bool {
    if radix == 2 {
        b == 0x30 || b == 0x31
    } else if radix == 8 {
        0x30 <= b <= 0x37
    } else if radix == 16 {
        is_digit(b) || 0x61 <= b <= 0x66 || 0x41 <= b <= 0x46
    } else {
        false
    }
}

/// Digits of a `#` byte literal: `0-9` and lowercase `a-f` only.
pub open spec fn is_lower_hex(b: u8) -> bool {
    is_digit(b) || 0x61 <= b <= 0x66
}

/// Value of a digit in any radix up to 16 (either letter case).
pub open spec fn digit_value(b: u8) -> nat {
    if is_digit(b) {
        (b - 0x30) as nat
    } else if 0x61 <= b <= 0x66 {
        (b - 0x61 + 10) as nat
    } else if 0x41 <= b <= 0x46 {
        (b - 0x41 + 10) as nat
    } else {
        0
    }
}

/// Length of the UTF-8 sequence announced by a leading byte; 1 for ASCII
/// and for bytes that cannot lead a sequence.
pub open spec fn spec_utf8_char_len(b: u8) -> int {
    if b <= 0x7F {
        1
    } else if 0xC0 <= b <= 0xDF {
        2
    } else if 0xE0 <= b <= 0xEF {
        3
    } else if 0xF0 <= b <= 0xF7 {
        4
    } else {
        1
    }
}

pub fn is_ident_start(b: u8) -> (r: bool)
    ensures
        r == spec_ident_start(b),
{
    (b >= 0x41 && b <= 0x5A) || (b >= 0x61 && b <= 0x7A) || b == 0x5F
}

pub fn is_ident_continue(b: u8) -> (r: bool)
    ensures
        r == spec_ident_continue(b),
{
    is_ident_start(b) || (b >= 0x30 && b <= 0x39) || b == 0x2D
}

pub fn is_radix_digit(b: u8, radix: u32) -> (r: bool)
    ensures
        r == spec_radix_digit(b, radix),
{
    match radix {
        2 => b == 0x30 || b == 0x31,
        8 => b >= 0x30 && b <= 0x37,
        16 => (b >= 0x30 && b <= 0x39) || (b >= 0x61 && b <= 0x66) || (b >= 0x41 && b <= 0x46),
        _ => false,
    }
}

/// Value of a lowercase hex digit; `None` for anything else.
pub fn hex_digit(b: u8) -> (r: Option<u8>)
    ensures
        r matches Some(v) ==> is_lower_hex(b) && v as nat == digit_value(b) && v < 16,
        r is None ==> !is_lower_hex(b),
{
    if b >= 0x30 && b <= 0x39 {
        Some(b - 0x30)
    } else if b >= 0x61 && b <= 0x66 {
        Some(b - 0x61 + 10)
    } else {
        None
    }
}

pub fn utf8_char_len(b: u8) -> (r: usize)
    ensures
        r as int == spec_utf8_char_len(b),
{
    if b <= 0x7F {
        1
    } else if b >= 0xC0 && b <= 0xDF {
        2
    } else if b >= 0xE0 && b <= 0xEF {
        3
    } else if b >= 0xF0 && b <= 0xF7 {
        4
    } else {
        1
    }
}

pub open spec fn all_ascii(b: Seq<u8>) -> bool {
    forall|i: int| 0 <= i < b.len() ==> #[trigger] b[i] < 0x80
}

/// The characters of an ASCII byte run, one per byte.
pub open spec fn ascii_text(b: Seq<u8>) -> Seq<char> {
    Seq::new(b.len(), |i: int| b[i] as char)
}

/// An ASCII byte run is valid UTF-8 and decodes to one character per byte.
pub proof fn lemma_ascii_utf8(b: Seq<u8>)
    requires
        all_ascii(b),
    ensures
        valid_utf8(b),
        decode_utf8(b) == ascii_text(b),
{
    let chars = ascii_text(b);
    assert forall|i: int| 0 <= i < chars.len() implies '\0' <= #[trigger] chars[i] <= '\u{7f}' by {
        let x = b[i];
        assert(x < 0x80);
        assert((x as char) as u32 == x as u32);
    }
    assert(is_ascii_chars(chars));
    is_ascii_chars_encode_utf8(chars);
    assert forall|i: int| 0 <= i < b.len() implies #[trigger] encode_utf8(chars)[i] == b[i] by {
        assert(chars[i] as u8 == encode_utf8(chars)[i]);
        let x = b[i];
        assert(((x as char) as u8) == x);
    }
    assert(encode_utf8(chars) =~= b);
    encode_utf8_valid_utf8(chars);
    encode_utf8_decode_utf8(chars);
}

/// `String::from_utf8`: succeeds exactly on valid UTF-8, and the string
/// holds the decoded characters.
#[verifier::external_body]
pub(crate) fn string_from_utf8(bytes: Vec<u8>) -> (r: Option<String>)
    ensures
        r is Some <==> valid_utf8(bytes@),
        r matches Some(text) ==> text@ == decode_utf8(bytes@),
{
    String::from_utf8(bytes).ok()
}

/// `String::push`: appends one character.
#[verifier::external_body]
pub(crate) fn push_char(s: &mut String, c: char)
    ensures
        final(s)@ == old(s)@.push(c),
{
    s.push(c)
}

/// Copies an ASCII byte run into a `String`.
pub fn ascii_string(b: &[u8], start: usize, end: usize) -> (r: String)
    requires
        start <= end <= b@.len(),
        all_ascii(b@.subrange(start as int, end as int)),
    ensures
        r@ == ascii_text(b@.subrange(start as int, end as int)),
{
    let mut v: Vec<u8> = Vec::new();
    let mut i: usize = start;
    while i < end
        invariant
            start <= i <= end <= b@.len(),
            v@ == b@.subrange(start as int, i as int),
        decreases end - i,
    {
        v.push(b[i]);
        i = i + 1;
        assert(v@ =~= b@.subrange(start as int, i as int));
    }
    proof {
        lemma_ascii_utf8(v@);
    }
    match string_from_utf8(v) {
        Some(s) => s,
        None => {
            assert(false);
            String::new()
        },
    }
}

} // verus!
