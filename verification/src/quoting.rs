//! Quoted strings: what the lexer reads from `"…"` in terms of the
//! characters of the text (the closing quote, the escapes), and that the
//! nexus form of a string that cannot go bare (`"` + the escaped
//! characters + `"`) reads back as that same string, whatever characters
//! it holds; and facts about the UTF-8 bytes of a text that the bracketed
//! nota forms rely on.

use vstd::prelude::*;

use crate::de::{advance, first_of, string_of, with_next};
use crate::error::LexError;
use crate::lexer::{lex_at, lex_inline, inline_scan, escape_byte, latin1_bytes, skip_trivia, Dialect, TokenModel};
use crate::laws::{reader_start, reads_back};
use crate::ser::{bare_string_eligible, escape_char, escape_text, str_literal_text};
use crate::text::spec_utf8_char_len;
use vstd::utf8::{
    decode_utf8, encode_scalar, encode_utf8, has_width_1_encoding, has_width_2_encoding,
    has_width_3_encoding, has_width_4_encoding, last_continuation_byte, leading_byte_width_1,
    leading_byte_width_2, leading_byte_width_3, leading_byte_width_4,
    second_last_continuation_byte, third_last_continuation_byte, valid_utf8,
};
use crate::ser::has_multiline_closer;

verus! {

/// The encoding of a concatenation is the concatenation of encodings.
pub proof fn lemma_encode_concat(a: Seq<char>, b: Seq<char>)
    ensures
        encode_utf8(a + b) == encode_utf8(a) + encode_utf8(b),
    decreases a.len(),
{
    if a.len() > 0 {
        assert((a + b).drop_first() =~= a.drop_first() + b);
        assert((a + b)[0] == a[0]);
        lemma_encode_concat(a.drop_first(), b);
        assert(encode_utf8(a + b) =~= encode_utf8(a) + encode_utf8(b));
    } else {
        assert(a + b =~= b);
    }
}

/// Distinct characters have distinct code points.
proof fn lemma_char_code_inj(a: char, b: char)
    requires
        a as u32 == b as u32,
    ensures
        a == b,
{
    vstd::utf8::char_u32_cast(a, a as u32);
    vstd::utf8::char_u32_cast(b, b as u32);
}

/// A character other than `"`, newline and `\` has another code point.
proof fn lemma_not_special(c: char)
    requires
        c != '"',
        c != '\n',
        c != '\\',
    ensures
        c as u32 != 0x22,
        c as u32 != 0x0A,
        c as u32 != 0x5C,
{
    assert('"' as u32 == 0x22);
    assert('\n' as u32 == 0x0A);
    assert('\\' as u32 == 0x5C);
    if c as u32 == 0x22 {
        lemma_char_code_inj(c, '"');
    }
    if c as u32 == 0x0A {
        lemma_char_code_inj(c, '\n');
    }
    if c as u32 == 0x5C {
        lemma_char_code_inj(c, '\\');
    }
}

/// The encoding of one character.
pub(crate) proof fn lemma_encode_one(c: char)
    ensures
        encode_utf8(seq![c]) == encode_scalar(c as u32),
        encode_utf8(seq![c]).len() >= 1,
        (c as u32) < 0x80 ==> encode_utf8(seq![c]).len() == 1 && encode_utf8(seq![c])[0] as u32
            == c as u32,
{
    assert(seq![c].drop_first() =~= Seq::<char>::empty());
    assert(seq![c][0] == c);
    assert(encode_utf8(Seq::<char>::empty()) =~= Seq::<u8>::empty());
    assert(encode_utf8(seq![c]) == encode_scalar(c as u32) + encode_utf8(Seq::<char>::empty()));
    assert(encode_utf8(seq![c]) =~= encode_scalar(c as u32));
    lemma_leading_byte(c);
}

/// The encoding of two ASCII characters.
proof fn lemma_encode_two(a: char, b: char)
    requires
        (a as u32) < 0x80,
        (b as u32) < 0x80,
    ensures
        encode_utf8(seq![a, b]).len() == 2,
        encode_utf8(seq![a, b])[0] as u32 == a as u32,
        encode_utf8(seq![a, b])[1] as u32 == b as u32,
{
    lemma_encode_one(a);
    lemma_encode_one(b);
    lemma_encode_concat(seq![a], seq![b]);
    assert(seq![a] + seq![b] =~= seq![a, b]);
}

/// Escaping works character by character from the front too.
proof fn lemma_escape_cons(c: char, w: Seq<char>)
    ensures
        escape_text(seq![c] + w) == escape_char(c) + escape_text(w),
    decreases w.len(),
{
    if w.len() == 0 {
        assert(seq![c] + w =~= seq![c]);
        assert(seq![c].drop_last() =~= Seq::<char>::empty());
        assert(escape_text(seq![c]) == escape_text(Seq::<char>::empty()) + escape_char(c));
        assert(escape_text(seq![c]) =~= escape_char(c));
        assert(escape_char(c) + escape_text(w) =~= escape_char(c));
    } else {
        let v = seq![c] + w;
        assert(v.drop_last() =~= seq![c] + w.drop_last());
        assert(v.last() == w.last());
        lemma_escape_cons(c, w.drop_last());
        assert(escape_text(v) =~= escape_char(c) + escape_text(w));
    }
}

/// The first byte of a character's encoding announces its length; the
/// quote, the backslash and the newline are single bytes, and every other
/// character begins with a byte that is none of them.
proof fn lemma_leading_byte(c: char)
    ensures
        encode_scalar(c as u32).len() == spec_utf8_char_len(encode_scalar(c as u32)[0]),
        (c as u32) < 0x80 ==> encode_scalar(c as u32).len() == 1 && encode_scalar(c as u32)[0] as u32
            == c as u32,
        (c as u32) >= 0x80 ==> encode_scalar(c as u32)[0] >= 0xC0,
{
    vstd::utf8::char_is_scalar(c);
    let v = c as u32;
    if has_width_1_encoding(v) {
        assert(has_width_1_encoding(v) ==> leading_byte_width_1(v) <= 0x7F && leading_byte_width_1(
            v,
        ) as u32 == v) by (bit_vector);
    } else if has_width_2_encoding(v) {
        assert(has_width_2_encoding(v) ==> 0xC0 <= leading_byte_width_2(v) <= 0xDF) by (bit_vector);
    } else if has_width_3_encoding(v) {
        assert(has_width_3_encoding(v) ==> 0xE0 <= leading_byte_width_3(v) <= 0xEF) by (bit_vector);
    } else {
        assert(has_width_4_encoding(v) ==> 0xF0 <= leading_byte_width_4(v) <= 0xF7) by (bit_vector);
    }
}

/// The escaped characters of `v`, found at `q` and followed by a quote,
/// are read back as the bytes of `v`, ending past that quote.
pub(crate) proof fn lemma_scan_escaped(s: Seq<u8>, q: int, acc: Seq<u8>, v: Seq<char>)
    requires
        0 <= q,
        q + encode_utf8(escape_text(v)).len() < s.len(),
        s.subrange(q, q + encode_utf8(escape_text(v)).len()) == encode_utf8(escape_text(v)),
        s[q + encode_utf8(escape_text(v)).len()] == 0x22,
    ensures
        inline_scan(s, q, acc) == (
            Ok::<Seq<u8>, LexError>(acc + encode_utf8(v)),
            q + encode_utf8(escape_text(v)).len() + 1,
        ),
    decreases v.len(),
{
    let e = encode_utf8(escape_text(v));
    if v.len() == 0 {
        assert(escape_text(v) =~= Seq::<char>::empty());
        assert(acc + encode_utf8(v) =~= acc);
    } else {
        let c = v[0];
        let w = v.drop_first();
        assert(v =~= seq![c] + w);
        lemma_escape_cons(c, w);
        let ec = escape_char(c);
        lemma_encode_concat(ec, escape_text(w));
        let bc = encode_utf8(ec);
        let rest = encode_utf8(escape_text(w));
        assert(e == bc + rest);
        let q2 = q + bc.len();
        assert forall|i: int| 0 <= i < bc.len() implies #[trigger] s[q + i] == bc[i] by {
            assert(s.subrange(q, q + e.len())[i] == e[i]);
        }
        assert(s.subrange(q2, q2 + rest.len()) =~= rest) by {
            assert forall|i: int| 0 <= i < rest.len() implies #[trigger] s.subrange(
                q2,
                q2 + rest.len(),
            )[i] == rest[i] by {
                assert(s.subrange(q, q + e.len())[bc.len() + i] == e[bc.len() + i]);
            }
        }
        assert(q2 + rest.len() == q + e.len());
        lemma_scan_escaped(s, q2, acc + encode_utf8(seq![c]), w);
        lemma_encode_concat(seq![c], w);
        lemma_encode_one(c);
        if c == '\\' || c == '"' || c == '\n' {
            let x: char = if c == '\\' {
                '\\'
            } else if c == '"' {
                '"'
            } else {
                'n'
            };
            assert(ec == seq!['\\', x]);
            lemma_encode_two('\\', x);
            assert(s[q + 0] == bc[0] && s[q + 1] == bc[1]);
            assert(s[q] == 0x5C);
            let cb = encode_utf8(seq![c])[0];
            assert(escape_byte(s[q + 1]) == Some(cb));
            assert(acc.push(cb) =~= acc + encode_utf8(seq![c]));
        } else {
            assert(ec == seq![c]);
            lemma_leading_byte(c);
            let b = s[q];
            assert(s[q + 0] == bc[0]);
            assert(b == bc[0]);
            lemma_not_special(c);
            if (c as u32) < 0x80 {
                assert(b as u32 == c as u32);
                assert(b != 0x22 && b != 0x0A && b != 0x5C);
                assert(spec_utf8_char_len(b) == 1);
                assert(latin1_bytes(b) =~= encode_utf8(seq![c]));
                assert(inline_scan(s, q, acc) == inline_scan(s, q + 1, acc + latin1_bytes(b)));
            } else {
                assert(b >= 0xC0);
                assert(s.subrange(q, q + bc.len()) =~= bc);
                assert(inline_scan(s, q, acc) == inline_scan(s, q + bc.len(), acc + bc));
            }
        }
        assert(acc + encode_utf8(v) =~= acc + encode_utf8(seq![c]) + encode_utf8(w));
    }
}

/// In nexus, a string that does not go bare is written quoted, with `\`,
/// `"` and newlines escaped; the reader takes that text as the same
/// string, and nothing follows it. This holds for every string, whatever
/// characters it holds (and in nota too, where the lexer also reads
/// quoted strings).
pub proof fn law_quoted_string_round_trip(d: Dialect, v: Seq<char>)
    requires
        !bare_string_eligible(v),
    ensures
        str_literal_text(Dialect::Nexus, v) == seq!['"'] + escape_text(v) + seq!['"'],
        reads_back(d, str_literal_text(Dialect::Nexus, v), |t: TokenModel| string_of(t), v),
{
    let t = str_literal_text(Dialect::Nexus, v);
    let x = escape_text(v);
    let ex = encode_utf8(x);
    lemma_encode_concat(seq!['"'] + x, seq!['"']);
    lemma_encode_concat(seq!['"'], x);
    lemma_encode_one('"');
    let s = encode_utf8(t);
    assert(s =~= seq![0x22u8] + ex + seq![0x22u8]);
    let n = ex.len() as int;
    assert(s.len() == n + 2);
    assert(s.subrange(1, 1 + n) =~= ex);
    lemma_scan_escaped(s, 1, Seq::<u8>::empty(), v);
    assert(Seq::<u8>::empty() + encode_utf8(v) =~= encode_utf8(v));
    vstd::utf8::encode_utf8_valid_utf8(v);
    vstd::utf8::encode_utf8_decode_utf8(v);
    assert(skip_trivia(s, 0) == 0);
    // Not `"""`: the second byte is a quote only when the string is empty.
    if n > 0 {
        lemma_first_escaped_not_quote(v);
        assert(s[1] == ex[0]);
    }
    assert(lex_at(d, s, 0, false) == lex_inline(s, 1));
    assert(skip_trivia(s, n + 2) == n + 2);
}

/// The escaped text never starts with a quote byte.
pub(crate) proof fn lemma_first_escaped_not_quote(v: Seq<char>)
    requires
        encode_utf8(escape_text(v)).len() > 0,
    ensures
        encode_utf8(escape_text(v))[0] != 0x22,
{
    if v.len() == 0 {
        assert(escape_text(v) =~= Seq::<char>::empty());
    } else {
        let c = v[0];
        let w = v.drop_first();
        assert(v =~= seq![c] + w);
        lemma_escape_cons(c, w);
        lemma_encode_concat(escape_char(c), escape_text(w));
        if c == '\\' || c == '"' || c == '\n' {
            let x: char = if c == '\\' {
                '\\'
            } else if c == '"' {
                '"'
            } else {
                'n'
            };
            assert(escape_char(c) == seq!['\\', x]);
            lemma_encode_two('\\', x);
            assert(encode_utf8(escape_char(c))[0] == 0x5C);
        } else {
            lemma_encode_one(c);
            assert(escape_char(c) == seq![c]);
            let bc = encode_utf8(seq![c]);
            assert(bc.len() > 0);
            assert(bc[0] != 0x22) by {
                lemma_leading_byte(c);
                lemma_not_special(c);
                if (c as u32) < 0x80 {
                    assert(bc[0] as u32 == c as u32);
                } else {
                    assert(bc[0] >= 0xC0);
                }
            }
            assert((bc + encode_utf8(escape_text(w)))[0] == bc[0]);
        }
    }
}

/// Every byte of the encoding of a non-ASCII character is at least
/// `0x80`; an ASCII character is its own single byte.
pub(crate) proof fn lemma_scalar_bytes(c: char)
    ensures
        encode_scalar(c as u32).len() >= 1,
        (c as u32) < 0x80 ==> encode_scalar(c as u32).len() == 1 && encode_scalar(c as u32)[0] as u32
            == c as u32,
        (c as u32) >= 0x80 ==> forall|j: int|
            0 <= j < encode_scalar(c as u32).len() ==> #[trigger] encode_scalar(c as u32)[j] >= 0x80,
{
    lemma_leading_byte(c);
    let v = c as u32;
    assert(last_continuation_byte(v) >= 0x80) by (bit_vector);
    assert(second_last_continuation_byte(v) >= 0x80) by (bit_vector);
    assert(third_last_continuation_byte(v) >= 0x80) by (bit_vector);
}

/// A text without `]` encodes to bytes without `]`.
pub(crate) proof fn lemma_no_close_bracket_bytes(v: Seq<char>)
    requires
        !v.contains(']'),
    ensures
        forall|i: int| 0 <= i < encode_utf8(v).len() ==> #[trigger] encode_utf8(v)[i] != 0x5D,
    decreases v.len(),
{
    if v.len() > 0 {
        let c = v[0];
        let w = v.drop_first();
        assert(v =~= seq![c] + w);
        assert(!w.contains(']')) by {
            if w.contains(']') {
                let k = choose|k: int| 0 <= k < w.len() && w[k] == ']';
                assert(v[k + 1] == ']');
            }
        }
        lemma_no_close_bracket_bytes(w);
        lemma_encode_concat(seq![c], w);
        lemma_encode_one(c);
        lemma_scalar_bytes(c);
        let ec = encode_utf8(seq![c]);
        let ew = encode_utf8(w);
        assert forall|i: int| 0 <= i < encode_utf8(v).len() implies #[trigger] encode_utf8(v)[i]
            != 0x5D by {
            if i < ec.len() {
                assert(encode_utf8(v)[i] == ec[i]);
                if (c as u32) < 0x80 {
                    assert(c != ']');
                    if ec[i] == 0x5D {
                        lemma_char_code_inj(c, ']');
                    }
                }
            } else {
                assert(encode_utf8(v)[i] == ew[i - ec.len()]);
            }
        }
    }
}

/// The first byte of the encoding of a non-empty text is `|` only when
/// its first character is.
pub(crate) proof fn lemma_first_byte_pipe(v: Seq<char>)
    requires
        v.len() > 0,
        v[0] != '|',
    ensures
        encode_utf8(v).len() > 0,
        encode_utf8(v)[0] != 0x7C,
{
    let c = v[0];
    let w = v.drop_first();
    assert(v =~= seq![c] + w);
    lemma_encode_concat(seq![c], w);
    lemma_encode_one(c);
    lemma_scalar_bytes(c);
    assert(encode_utf8(v)[0] == encode_utf8(seq![c])[0]);
    if (c as u32) < 0x80 && encode_utf8(v)[0] == 0x7C {
        lemma_char_code_inj(c, '|');
    }
}

/// A text without `|]` encodes to bytes without the pair `|` `]`.
pub(crate) proof fn lemma_no_pipe_close_bytes(v: Seq<char>)
    requires
        !has_multiline_closer(v),
    ensures
        forall|i: int|
            0 <= i && i + 1 < encode_utf8(v).len() ==> !(#[trigger] encode_utf8(v)[i] == 0x7C
                && encode_utf8(v)[i + 1] == 0x5D),
    decreases v.len(),
{
    if v.len() > 0 {
        let c = v[0];
        let w = v.drop_first();
        assert(v =~= seq![c] + w);
        assert(!has_multiline_closer(w)) by {
            if has_multiline_closer(w) {
                let k = choose|k: int| 0 <= k && k + 1 < w.len() && #[trigger] w[k] == '|' && w[k
                    + 1] == ']';
                assert(v[k + 1] == '|' && v[k + 2] == ']');
            }
        }
        lemma_no_pipe_close_bytes(w);
        lemma_encode_concat(seq![c], w);
        lemma_encode_one(c);
        lemma_scalar_bytes(c);
        let ec = encode_utf8(seq![c]);
        let ew = encode_utf8(w);
        let e = encode_utf8(v);
        assert forall|i: int| 0 <= i && i + 1 < e.len() implies !(#[trigger] e[i] == 0x7C && e[i
            + 1] == 0x5D) by {
            if i + 1 < ec.len() {
                assert(e[i] == ec[i]);
            } else if i + 1 == ec.len() {
                assert(e[i] == ec[i]);
                assert(e[i + 1] == ew[0]);
                if e[i] == 0x7C && e[i + 1] == 0x5D {
                    assert((c as u32) < 0x80);
                    lemma_char_code_inj(c, '|');
                    let c2 = w[0];
                    let w2 = w.drop_first();
                    assert(w =~= seq![c2] + w2);
                    lemma_encode_concat(seq![c2], w2);
                    lemma_encode_one(c2);
                    lemma_scalar_bytes(c2);
                    assert(ew[0] == encode_utf8(seq![c2])[0]);
                    assert((c2 as u32) < 0x80);
                    lemma_char_code_inj(c2, ']');
                    assert(v[0] == '|' && v[1] == ']');
                }
            } else {
                assert(e[i] == ew[i - ec.len()]);
                assert(e[i + 1] == ew[i + 1 - ec.len()]);
            }
        }
    }
}


/// The character an escape letter stands for: `\\`, `"`, `n` (line
/// feed), `t` (tab) and `r` (carriage return).
pub open spec fn unescape_char(c: char) -> Option<char> {
    if c == '\\' {
        Some('\\')
    } else if c == '"' {
        Some('"')
    } else if c == 'n' {
        Some('\n')
    } else if c == 't' {
        Some('\t')
    } else if c == 'r' {
        Some('\r')
    } else {
        None
    }
}

/// An inline string read from the characters `t` that follow its opening
/// quote: the text up to the first unescaped `"`, each escape translated
/// and every other character copied, with the number of characters of `t`
/// it spans, closing quote included. `None` where a line break, the end
/// of `t`, or an unknown or cut-off escape comes first.
pub open spec fn inline_text(t: Seq<char>) -> Option<(Seq<char>, int)>
    decreases t.len(),
{
    if t.len() == 0 {
        None
    } else if t[0] == '"' {
        Some((seq![], 1))
    } else if t[0] == '\n' {
        None
    } else if t[0] == '\\' {
        if t.len() < 2 {
            None
        } else {
            match unescape_char(t[1]) {
                Some(c) => match inline_text(t.subrange(2, t.len() as int)) {
                    Some((x, k)) => Some((seq![c] + x, k + 2)),
                    None => None,
                },
                None => None,
            }
        }
    } else {
        match inline_text(t.drop_first()) {
            Some((x, k)) => Some((seq![t[0]] + x, k + 1)),
            None => None,
        }
    }
}

/// An escape letter's byte is an escape exactly when the letter is one,
/// and then stands for the byte of the character it names.
proof fn lemma_escape_letter(c: char)
    ensures
        (c as u32) >= 0x80 ==> unescape_char(c) is None,
        (c as u32) < 0x80 ==> match (escape_byte(c as u32 as u8), unescape_char(c)) {
            (Some(b), Some(x)) => b as u32 == x as u32 && (x as u32) < 0x80,
            (None, None) => true,
            _ => false,
        },
{
    assert('\\' as u32 == 0x5C);
    assert('"' as u32 == 0x22);
    assert('n' as u32 == 0x6E);
    assert('t' as u32 == 0x74);
    assert('r' as u32 == 0x72);
    assert('\n' as u32 == 0x0A);
    assert('\t' as u32 == 0x09);
    assert('\r' as u32 == 0x0D);
    let v = c as u32;
    if v < 0x80 {
        assert((v as u8) as u32 == v) by (bit_vector)
            requires
                v < 0x80,
        ;
        if v == 0x5C {
            lemma_char_code_inj(c, '\\');
        } else if v == 0x22 {
            lemma_char_code_inj(c, '"');
        } else if v == 0x6E {
            lemma_char_code_inj(c, 'n');
        } else if v == 0x74 {
            lemma_char_code_inj(c, 't');
        } else if v == 0x72 {
            lemma_char_code_inj(c, 'r');
        }
    }
}

/// The scan of an inline string over the UTF-8 bytes of `t` agrees with
/// [`inline_text`], after the bytes `acc` already read.
proof fn lemma_inline_scan_text(s: Seq<u8>, q: int, acc: Seq<u8>, t: Seq<char>)
    requires
        0 <= q <= s.len(),
        s.subrange(q, s.len() as int) == encode_utf8(t),
    ensures
        match inline_text(t) {
            Some((x, k)) => 0 < k <= t.len() && inline_scan(s, q, acc) == (
                Ok::<Seq<u8>, LexError>(acc + encode_utf8(x)),
                q + encode_utf8(t.subrange(0, k)).len(),
            ),
            None => inline_scan(s, q, acc).0 is Err,
        },
    decreases t.len(),
{
    if t.len() == 0 {
        assert(s.len() == q);
    } else {
        let c = t[0];
        let w = t.drop_first();
        let bc = encode_scalar(c as u32);
        assert(encode_utf8(t) == bc + encode_utf8(w));
        lemma_leading_byte(c);
        lemma_scalar_bytes(c);
        let n = bc.len() as int;
        assert forall|i: int| 0 <= i < n implies #[trigger] s[q + i] == bc[i] by {
            assert(s.subrange(q, s.len() as int)[i] == encode_utf8(t)[i]);
        }
        let b = s[q];
        assert(s[q + 0] == bc[0]);
        assert(s.subrange(q + n, s.len() as int) =~= encode_utf8(w)) by {
            assert forall|i: int| 0 <= i < encode_utf8(w).len() implies #[trigger] s.subrange(
                q + n,
                s.len() as int,
            )[i] == encode_utf8(w)[i] by {
                assert(s.subrange(q, s.len() as int)[n + i] == encode_utf8(t)[n + i]);
            }
        }
        lemma_encode_one(c);
        if c == '"' || c == '\n' || c == '\\' {
            assert('"' as u32 == 0x22);
            assert('\n' as u32 == 0x0A);
            assert('\\' as u32 == 0x5C);
            assert(b as u32 == c as u32);
        } else {
            lemma_not_special(c);
        }
        if c == '"' {
            assert(t.subrange(0, 1) =~= seq![c]);
            assert(acc + encode_utf8(Seq::<char>::empty()) =~= acc);
        } else if c == '\n' {
        } else if c == '\\' {
            if t.len() >= 2 {
                let d = t[1];
                let w2 = t.subrange(2, t.len() as int);
                assert(w =~= seq![d] + w2);
                lemma_encode_concat(seq![d], w2);
                lemma_encode_one(d);
                lemma_leading_byte(d);
                let bd = encode_scalar(d as u32);
                assert(encode_utf8(w) == bd + encode_utf8(w2));
                assert(s[q + 1] == bd[0]) by {
                    assert(s.subrange(q + 1, s.len() as int)[0] == encode_utf8(w)[0]);
                }
                lemma_escape_letter(d);
                if (d as u32) < 0x80 {
                    assert(bd[0] == d as u32 as u8) by {
                        let v = d as u32;
                        let y = bd[0];
                        assert(y as u32 == v);
                        assert(v < 0x80 && y as u32 == v ==> y == v as u8) by (bit_vector);
                    }
                    if let Some(x) = unescape_char(d) {
                        let eb = escape_byte(s[q + 1]).unwrap();
                        assert(s.subrange(q + 2, s.len() as int) =~= encode_utf8(w2)) by {
                            assert forall|i: int| 0 <= i < encode_utf8(w2).len() implies #[trigger] s.subrange(
                                q + 2,
                                s.len() as int,
                            )[i] == encode_utf8(w2)[i] by {
                                assert(s.subrange(q + 1, s.len() as int)[1 + i] == encode_utf8(w)[1 + i]);
                            }
                        }
                        lemma_encode_one(x);
                        assert(acc.push(eb) =~= acc + encode_utf8(seq![x])) by {
                            let y = encode_utf8(seq![x])[0];
                            assert(y as u32 == eb as u32);
                            assert(y as u32 == eb as u32 ==> y == eb) by (bit_vector);
                        }
                        lemma_inline_scan_text(s, q + 2, acc + encode_utf8(seq![x]), w2);
                        if let Some((y, k)) = inline_text(w2) {
                            lemma_encode_concat(seq![x], y);
                            assert(acc + encode_utf8(seq![x]) + encode_utf8(y) =~= acc + encode_utf8(
                                seq![x] + y,
                            ));
                            assert(t.subrange(0, k + 2) =~= seq![c, d] + w2.subrange(0, k));
                            assert(seq![c, d] =~= seq![c] + seq![d]);
                            lemma_encode_concat(seq![c, d], w2.subrange(0, k));
                            lemma_encode_concat(seq![c], seq![d]);
                        }
                    }
                } else {
                    assert(bd[0] >= 0xC0);
                }
            } else {
                assert(w.len() == 0);
                assert(s.len() == q + 1);
            }
        } else {
            let acc2 = acc + bc;
            if (c as u32) < 0x80 {
                assert(spec_utf8_char_len(b) == 1);
                assert(latin1_bytes(b) =~= bc);
            } else {
                assert(b >= 0xC0);
                assert(spec_utf8_char_len(b) == n);
                assert(n > 1);
                assert(q + n <= s.len());
                assert(s.subrange(q, q + n) =~= bc);
            }
            lemma_inline_scan_text(s, q + n, acc2, w);
            if let Some((y, k)) = inline_text(w) {
                lemma_encode_concat(seq![c], y);
                assert(acc2 + encode_utf8(y) =~= acc + encode_utf8(seq![c] + y));
                assert(t.subrange(0, k + 1) =~= seq![c] + w.subrange(0, k));
                lemma_encode_concat(seq![c], w.subrange(0, k));
            }
        }
    }
}

/// An inline string (`"…"`), where the lexer stands past the opening
/// quote on the characters `t` of the text: it is read exactly when
/// [`inline_text`] finds its end (a closing quote that comes before any
/// line break and after only known escapes), and then it is that text,
/// with the lexer past the closing quote; otherwise the lexer refuses it.
pub proof fn law_inline_string(s: Seq<u8>, q: int, t: Seq<char>)
    requires
        0 <= q <= s.len(),
        s.subrange(q, s.len() as int) == encode_utf8(t),
    ensures
        match inline_text(t) {
            Some((x, k)) => lex_inline(s, q) == (
                Ok::<TokenModel, LexError>(TokenModel::Str(x)),
                q + encode_utf8(t.subrange(0, k)).len(),
            ),
            None => lex_inline(s, q).0 is Err,
        },
{
    lemma_inline_scan_text(s, q, seq![], t);
    if let Some((x, k)) = inline_text(t) {
        assert(Seq::<u8>::empty() + encode_utf8(x) =~= encode_utf8(x));
        vstd::utf8::encode_utf8_valid_utf8(x);
        vstd::utf8::encode_utf8_decode_utf8(x);
    }
}

} // verus!
