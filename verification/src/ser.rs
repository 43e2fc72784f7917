//! Writer for canonical nota / nexus text.
//!
//! Records are positional: `(TypeName v1 v2 …)` with fields in
//! declaration order. Newtype structs wrap: `(Id 42)`. Multi-field
//! unnamed structs are forbidden. Sequences are `<a b c>`; maps are
//! `<(k v) …>` sorted by the UTF-8 bytes of the written key. Floats
//! always contain `.` (or an exponent). Strings are bare when they look
//! like an identifier, else `[ inline ]` or `[| multiline |]`. Bytes are
//! `#<lowercase-hex>`.
//!
//! In the nexus dialect, where `<` and `>` are reserved and `[` opens a
//! sequence, sequences and maps use `[ ]` and strings that cannot go bare
//! are quoted, `"…"`, with `\\`, `\"` and `\n` escaped.
//!
//! In the nexus dialect, newtype structs named by one of the sentinel
//! constants are written as query wrappers: `@name`, `~x`, `!x`, `?x`,
//! `*x` and `[| a b |]`.

use vstd::prelude::*;
use vstd::std_specs::iter::IteratorSpec;
use vstd::string::StringExecFns;
use vstd::string::StringSliceAdditionalSpecFns;
use vstd::utf8::encode_utf8;

use crate::error::{Error, ErrorModel};
use crate::lexer::Dialect;
use crate::text::push_char;

verus! {

broadcast use vstd::string::group_string_axioms;

/// Newtype-struct name that marks a bind (`@name`).
pub const BIND_SENTINEL: &'static str = "@NexusBind";

/// Newtype-struct name that marks a mutation (`~x`).
pub const MUTATE_SENTINEL: &'static str = "@NexusMutate";

/// Newtype-struct name that marks a negation (`!x`).
pub const NEGATE_SENTINEL: &'static str = "@NexusNegate";

/// Newtype-struct name that marks a validation (`?x`).
pub const VALIDATE_SENTINEL: &'static str = "@NexusValidate";

/// Newtype-struct name that marks a subscription (`*x`).
pub const SUBSCRIBE_SENTINEL: &'static str = "@NexusSubscribe";

/// Newtype-struct name that marks an atomic batch (`[| a b |]`).
pub const ATOMIC_BATCH_SENTINEL: &'static str = "@NexusAtomicBatch";

// ---------- characters and strings ----------

/// The characters of `s`, in order.
pub fn chars_of(s: &str) -> (r: Vec<char>)
    ensures
        r@ == s@,
{
    let mut out: Vec<char> = Vec::new();
    let mut it = s.chars();
    let ghost whole = s@;
    loop
        invariant
            it.obeys_prophetic_iter_laws(),
            whole == s@,
            0 <= out@.len() <= whole.len(),
            it.remaining() == whole.skip(out@.len() as int),
            out@ == whole.take(out@.len() as int),
        ensures
            out@ == whole,
        decreases whole.len() - out@.len(),
    {
        let ghost old_rem = it.remaining();
        let ghost i = out@.len() as int;
        let nx = it.next();
        match nx {
            Some(c) => {
                assert(old_rem.len() > 0);
                assert(whole.skip(i)[0] == whole[i]);
                out.push(c);
                assert(out@ =~= whole.take(i + 1));
                assert(it.remaining() =~= whole.skip(i + 1));
            },
            None => {
                assert(whole.skip(i).len() == 0);
                assert(out@ =~= whole);
                break;
            },
        }
    }
    out
}

/// Character-by-character equality of two strings.
pub fn str_eq(a: &str, b: &str) -> (r: bool)
    ensures
        r == (a@ == b@),
{
    let x = chars_of(a);
    let y = chars_of(b);
    if x.len() != y.len() {
        return false;
    }
    let mut i: usize = 0;
    while i < x.len()
        invariant
            x@ == a@,
            y@ == b@,
            x@.len() == y@.len(),
            i <= x@.len(),
            forall|k: int| 0 <= k < i ==> x@[k] == y@[k],
        decreases x.len() - i,
    {
        if x[i] != y[i] {
            return false;
        }
        i = i + 1;
    }
    assert(x@ =~= y@);
    true
}

pub open spec fn digit_char(d: nat) -> char {
    (48 + d) as char
}

/// Decimal digits of `n`, most significant first, no leading zeros.
pub open spec fn decimal_digits(n: nat) -> Seq<char>
    decreases n,
{
    if n < 10 {
        seq![digit_char(n)]
    } else {
        decimal_digits(n / 10) + seq![digit_char(n % 10)]
    }
}

/// Decimal text of an integer, with `-` for negatives.
pub open spec fn int_text(v: int) -> Seq<char> {
    if v < 0 {
        seq!['-'] + decimal_digits((0 - v) as nat)
    } else {
        decimal_digits(v as nat)
    }
}

pub(crate) fn push_decimal(out: &mut String, n: u128)
    ensures
        final(out)@ == old(out)@ + decimal_digits(n as nat),
    decreases n,
{
    if n >= 10 {
        push_decimal(out, n / 10);
    }
    let d: u8 = (n % 10) as u8;
    push_char(out, (d + 48) as char);
}

pub open spec fn is_ident_start_char(c: char) -> bool {
    ('a' <= c <= 'z') || ('A' <= c <= 'Z') || c == '_'
}

pub open spec fn is_ident_continue_char(c: char) -> bool {
    is_ident_start_char(c) || ('0' <= c <= '9') || c == '-'
}

pub open spec fn is_keyword_text(v: Seq<char>) -> bool {
    v == seq!['t', 'r', 'u', 'e'] || v == seq!['f', 'a', 'l', 's', 'e'] || v == seq![
        'N',
        'o',
        'n',
        'e',
    ]
}

/// A string that may be written without delimiters: a non-empty
/// identifier-shaped text (`PascalCase`, `camelCase`, `kebab-case`,
/// `_x`) that is not `true`, `false` or `None`.
pub open spec fn bare_string_eligible(v: Seq<char>) -> bool {
    &&& v.len() > 0
    &&& !is_keyword_text(v)
    &&& is_ident_start_char(v[0])
    &&& forall|i: int| 1 <= i < v.len() ==> is_ident_continue_char(#[trigger] v[i])
}

/// `|]` occurs in `v`.
pub open spec fn has_multiline_closer(v: Seq<char>) -> bool {
    exists|i: int| 0 <= i && i + 1 < v.len() && #[trigger] v[i] == '|' && v[i + 1] == ']'
}

/// How one character is written inside quotes: `\\`, `\"` and a
/// newline are escaped, every other character stands for itself.
pub open spec fn escape_char(c: char) -> Seq<char> {
    if c == '\\' {
        seq!['\\', '\\']
    } else if c == '"' {
        seq!['\\', '"']
    } else if c == '\n' {
        seq!['\\', 'n']
    } else {
        seq![c]
    }
}

/// The characters of `v`, each escaped.
pub open spec fn escape_text(v: Seq<char>) -> Seq<char>
    decreases v.len(),
{
    if v.len() == 0 {
        seq![]
    } else {
        escape_text(v.drop_last()) + escape_char(v.last())
    }
}

/// The bracketed form of a string in nota: `[| … |]` on lines of its own
/// when the text holds `]` or a line break, else `[…]`.
pub open spec fn bracket_text(v: Seq<char>) -> Seq<char> {
    if v.contains(']') || v.contains('\n') {
        seq!['[', '|', '\n'] + v + (if v.len() > 0 && v.last() == '\n' {
            seq![]
        } else {
            seq!['\n']
        }) + seq!['|', ']']
    } else {
        seq!['['] + v + seq![']']
    }
}

/// The quoted form of a string in nexus: `"…"` with `\\`, `\"` and line
/// breaks escaped.
pub open spec fn quoted_text(v: Seq<char>) -> Seq<char> {
    seq!['"'] + escape_text(v) + seq!['"']
}

/// The written form of a string value (one without `|]`): bare when it
/// looks like an identifier, else bracketed in nota and quoted in nexus.
pub open spec fn str_literal_text(d: Dialect, v: Seq<char>) -> Seq<char> {
    if bare_string_eligible(v) {
        v
    } else if d == Dialect::Nota {
        bracket_text(v)
    } else {
        quoted_text(v)
    }
}

/// The character that opens a sequence or map: `<` in nota, `[` in nexus
/// (where `<` is reserved).
pub open spec fn seq_open_char(d: Dialect) -> char {
    if d == Dialect::Nota {
        '<'
    } else {
        '['
    }
}

/// The character that closes a sequence or map: `>` in nota, `]` in nexus.
pub open spec fn seq_close_char(d: Dialect) -> char {
    if d == Dialect::Nota {
        '>'
    } else {
        ']'
    }
}

fn is_keyword(v: &Vec<char>) -> (r: bool)
    ensures
        r == is_keyword_text(v@),
{
    let n = v.len();
    let r = (n == 4 && v[0] == 't' && v[1] == 'r' && v[2] == 'u' && v[3] == 'e') || (n == 5 && v[0]
        == 'f' && v[1] == 'a' && v[2] == 'l' && v[3] == 's' && v[4] == 'e') || (n == 4 && v[0]
        == 'N' && v[1] == 'o' && v[2] == 'n' && v[3] == 'e');
    proof {
        if r {
            if n == 4 && v[0] == 't' {
                assert(v@ =~= seq!['t', 'r', 'u', 'e']);
            } else if n == 5 {
                assert(v@ =~= seq!['f', 'a', 'l', 's', 'e']);
            } else {
                assert(v@ =~= seq!['N', 'o', 'n', 'e']);
            }
        } else {
            if v@ == seq!['t', 'r', 'u', 'e'] {
                assert(v@[0] == 't' && v@[1] == 'r' && v@[2] == 'u' && v@[3] == 'e');
            }
            if v@ == seq!['f', 'a', 'l', 's', 'e'] {
                assert(v@[0] == 'f' && v@[1] == 'a' && v@[2] == 'l' && v@[3] == 's' && v@[4] == 'e');
            }
            if v@ == seq!['N', 'o', 'n', 'e'] {
                assert(v@[0] == 'N' && v@[1] == 'o' && v@[2] == 'n' && v@[3] == 'e');
            }
        }
    }
    r
}

fn ident_start_char(c: char) -> (r: bool)
    ensures
        r == is_ident_start_char(c),
{
    (c >= 'a' && c <= 'z') || (c >= 'A' && c <= 'Z') || c == '_'
}

fn ident_continue_char(c: char) -> (r: bool)
    ensures
        r == is_ident_continue_char(c),
{
    ident_start_char(c) || (c >= '0' && c <= '9') || c == '-'
}

/// Whether a string value may be written bare; see
/// [`bare_string_eligible`].
pub fn is_bare_string_eligible(v: &str) -> (r: bool)
    ensures
        r == bare_string_eligible(v@),
{
    let chars = chars_of(v);
    bare_eligible_chars(&chars)
}

fn bare_eligible_chars(chars: &Vec<char>) -> (r: bool)
    ensures
        r == bare_string_eligible(chars@),
{
    if chars.len() == 0 {
        return false;
    }
    if is_keyword(chars) {
        return false;
    }
    if !ident_start_char(chars[0]) {
        return false;
    }
    let mut i: usize = 1;
    while i < chars.len()
        invariant
            1 <= i <= chars@.len(),
            forall|k: int| 1 <= k < i ==> is_ident_continue_char(#[trigger] chars@[k]),
        decreases chars.len() - i,
    {
        if !ident_continue_char(chars[i]) {
            return false;
        }
        i = i + 1;
    }
    true
}

/// PascalCase head: the first character is an ASCII uppercase letter.
pub open spec fn pascal_case(v: Seq<char>) -> bool {
    v.len() > 0 && 'A' <= v[0] <= 'Z'
}

/// Whether `s` is PascalCase — the rule for type and variant names in
/// head position.
pub fn is_pascal_case(s: &str) -> (r: bool)
    ensures
        r == pascal_case(s@),
{
    let chars = chars_of(s);
    chars.len() > 0 && chars[0] >= 'A' && chars[0] <= 'Z'
}

fn contains_char(v: &Vec<char>, x: char) -> (r: bool)
    ensures
        r == v@.contains(x),
{
    let mut i: usize = 0;
    while i < v.len()
        invariant
            i <= v@.len(),
            forall|k: int| 0 <= k < i ==> v@[k] != x,
        decreases v.len() - i,
    {
        if v[i] == x {
            assert(v@[i as int] == x);
            return true;
        }
        i = i + 1;
    }
    false
}

fn contains_multiline_closer(v: &Vec<char>) -> (r: bool)
    ensures
        r == has_multiline_closer(v@),
{
    let mut i: usize = 0;
    while v.len() > 1 && i < v.len() - 1
        invariant
            i <= v@.len(),
            forall|k: int| 0 <= k < i && k + 1 < v@.len() ==> !(#[trigger] v@[k] == '|' && v@[k + 1]
                == ']'),
        decreases v.len() - i,
    {
        if v[i] == '|' && v[i + 1] == ']' {
            assert(v@[i as int] == '|');
            return true;
        }
        i = i + 1;
    }
    false
}

/// The written form of a float whose shortest round-trip text is `s`:
/// `s` itself when it has a `.` or an exponent, else `s` + `.0`.
pub open spec fn float_text(s: Seq<char>) -> Seq<char> {
    if s.contains('.') || s.contains('e') || s.contains('E') {
        s
    } else {
        s + seq!['.', '0']
    }
}

pub open spec fn hex_char(d: nat) -> char {
    if d < 10 {
        (48 + d) as char
    } else {
        (87 + d) as char
    }
}

/// Two lowercase hex digits per byte.
pub open spec fn hex_text(v: Seq<u8>) -> Seq<char>
    decreases v.len(),
{
    if v.len() == 0 {
        seq![]
    } else {
        hex_text(v.drop_last()) + seq![hex_char((v.last() / 16) as nat), hex_char((v.last() % 16) as nat)]
    }
}

fn hex_digit_char(d: u8) -> (c: char)
    requires
        d < 16,
    ensures
        c == hex_char(d as nat),
{
    if d < 10 {
        (d + 48) as char
    } else {
        (d + 87) as char
    }
}

// ---------- sentinels ----------

/// The query-layer wrappers a newtype-struct name can stand for.
#[derive(Debug, Clone, Copy, PartialEq, Eq, Structural)]
pub enum Sentinel {
    Bind,
    Mutate,
    Negate,
    Validate,
    Subscribe,
    AtomicBatch,
}

/// The sentinel a newtype-struct name stands for, if any.
pub open spec fn sentinel_of(name: Seq<char>) -> Option<Sentinel> {
    if name == BIND_SENTINEL@ {
        Some(Sentinel::Bind)
    } else if name == MUTATE_SENTINEL@ {
        Some(Sentinel::Mutate)
    } else if name == NEGATE_SENTINEL@ {
        Some(Sentinel::Negate)
    } else if name == VALIDATE_SENTINEL@ {
        Some(Sentinel::Validate)
    } else if name == SUBSCRIBE_SENTINEL@ {
        Some(Sentinel::Subscribe)
    } else if name == ATOMIC_BATCH_SENTINEL@ {
        Some(Sentinel::AtomicBatch)
    } else {
        None
    }
}

/// Recognises the sentinel newtype-struct names.
pub fn sentinel(name: &str) -> (r: Option<Sentinel>)
    ensures
        r == sentinel_of(name@),
{
    if str_eq(name, BIND_SENTINEL) {
        Some(Sentinel::Bind)
    } else if str_eq(name, MUTATE_SENTINEL) {
        Some(Sentinel::Mutate)
    } else if str_eq(name, NEGATE_SENTINEL) {
        Some(Sentinel::Negate)
    } else if str_eq(name, VALIDATE_SENTINEL) {
        Some(Sentinel::Validate)
    } else if str_eq(name, SUBSCRIBE_SENTINEL) {
        Some(Sentinel::Subscribe)
    } else if str_eq(name, ATOMIC_BATCH_SENTINEL) {
        Some(Sentinel::AtomicBatch)
    } else {
        None
    }
}

/// Prefix character of the four prefix sentinels.
pub open spec fn sigil_of(s: Sentinel) -> char {
    match s {
        Sentinel::Mutate => '~',
        Sentinel::Negate => '!',
        Sentinel::Validate => '?',
        Sentinel::Subscribe => '*',
        _ => '@',
    }
}

/// Message for a sentinel newtype struct written in the nota dialect.
pub open spec fn sentinel_in_nota_message(name: Seq<char>) -> Seq<char> {
    "sentinel newtype-struct `"@ + name
        + "` is not valid in nota dialect; serialize via nexus (`to_string_nexus`) instead"@
}

/// A bind name: an identifier whose first character is an ASCII lowercase
/// letter or `_` (camelCase / kebab-case), other than `true` and `false`.
pub open spec fn bind_name(v: Seq<char>) -> bool {
    &&& v.len() > 0
    &&& (('a' <= v[0] <= 'z') || v[0] == '_')
    &&& forall|i: int| 1 <= i < v.len() ==> is_ident_continue_char(#[trigger] v[i])
    &&& v != seq!['t', 'r', 'u', 'e']
    &&& v != seq!['f', 'a', 'l', 's', 'e']
}

pub open spec fn bad_bind_message(name: Seq<char>) -> Seq<char> {
    "bind name `"@ + name
        + "` must be an identifier starting with a lowercase letter or `_`"@
}

/// How the caller continues after [`Serializer::serialize_newtype_struct`].
#[derive(Debug, Clone, Copy, PartialEq, Eq, Structural)]
pub enum NewtypeForm {
    /// `(Name ` was written: write the value, then [`Serializer::close_newtype`].
    Plain,
    /// Nothing was written: hand the inner string to [`Serializer::serialize_bind`].
    Bind,
    /// The sigil was written: write the value, nothing to close.
    Prefixed,
    /// Nothing was written: write the inner sequence through
    /// [`Serializer::serialize_atomic_batch`].
    AtomicBatch,
}

// ---------- the writer ----------

pub struct Serializer {
    output: String,
    dialect: Dialect,
}

/// Lexicographic order of byte strings.
pub open spec fn bytes_lt(a: Seq<u8>, b: Seq<u8>) -> bool
    decreases a.len(),
{
    if a.len() == 0 {
        b.len() > 0
    } else if b.len() == 0 {
        false
    } else if a[0] < b[0] {
        true
    } else if a[0] > b[0] {
        false
    } else {
        bytes_lt(a.drop_first(), b.drop_first())
    }
}

/// A written map entry: key text and value text.
pub type EntryModel = (Seq<char>, Seq<char>);

/// The key of `a` sorts strictly after the key of `b` (by UTF-8 bytes).
pub open spec fn key_after(a: EntryModel, b: EntryModel) -> bool {
    bytes_lt(encode_utf8(b.0), encode_utf8(a.0))
}

/// Inserts `e` into `s` just before the first entry whose key sorts after
/// it (after all entries with an equal key).
pub open spec fn insert_by_key(s: Seq<EntryModel>, e: EntryModel) -> Seq<EntryModel>
    decreases s.len(),
{
    if s.len() == 0 {
        seq![e]
    } else if key_after(s[0], e) {
        seq![e] + s
    } else {
        seq![s[0]] + insert_by_key(s.drop_first(), e)
    }
}

/// Entries stably sorted by key bytes (insertion order among equal keys).
pub open spec fn sort_entries(s: Seq<EntryModel>) -> Seq<EntryModel>
    decreases s.len(),
{
    if s.len() == 0 {
        seq![]
    } else {
        insert_by_key(sort_entries(s.drop_last()), s.last())
    }
}

/// `(k v)`.
pub open spec fn entry_text(e: EntryModel) -> Seq<char> {
    seq!['('] + e.0 + seq![' '] + e.1 + seq![')']
}

/// Entry texts joined by single spaces.
pub open spec fn entries_text(s: Seq<EntryModel>) -> Seq<char>
    decreases s.len(),
{
    if s.len() == 0 {
        seq![]
    } else if s.len() == 1 {
        entry_text(s[0])
    } else {
        entries_text(s.drop_last()) + seq![' '] + entry_text(s.last())
    }
}

/// The written map: `<(k v) …>` (`[(k v) …]` in nexus) in key order.
pub open spec fn map_text(d: Dialect, entries: Seq<EntryModel>) -> Seq<char> {
    seq![seq_open_char(d)] + entries_text(sort_entries(entries)) + seq![seq_close_char(d)]
}

pub open spec fn entries_model(v: Seq<(String, String)>) -> Seq<EntryModel> {
    Seq::new(v.len(), |i: int| (v[i].0@, v[i].1@))
}

impl Serializer {
    /// Text written so far.
    pub closed spec fn written(&self) -> Seq<char> {
        self.output@
    }

    pub closed spec fn spec_dialect(&self) -> Dialect {
        self.dialect
    }

    /// An empty writer for the nota dialect.
    pub fn new() -> (s: Self)
        ensures
            s.written() == Seq::<char>::empty(),
            s.spec_dialect() == Dialect::Nota,
    {
        Self::with_dialect(Dialect::Nota)
    }

    /// An empty writer for the nexus dialect.
    pub fn nexus() -> (s: Self)
        ensures
            s.written() == Seq::<char>::empty(),
            s.spec_dialect() == Dialect::Nexus,
    {
        Self::with_dialect(Dialect::Nexus)
    }

    pub fn with_dialect(dialect: Dialect) -> (s: Self)
        ensures
            s.written() == Seq::<char>::empty(),
            s.spec_dialect() == dialect,
    {
        Serializer { output: String::new(), dialect }
    }

    pub fn dialect(&self) -> (d: Dialect)
        ensures
            d == self.spec_dialect(),
    {
        self.dialect
    }

    /// The text written so far.
    pub fn output(&self) -> (s: &str)
        ensures
            s@ == self.written(),
    {
        self.output.as_str()
    }

    /// Gives up the writer for its text.
    pub fn into_output(self) -> (s: String)
        ensures
            s@ == self.written(),
    {
        self.output
    }

    fn append(&mut self, s: &str)
        ensures
            final(self).written() == old(self).written() + s@,
            final(self).spec_dialect() == old(self).spec_dialect(),
    {
        self.output.append(s);
    }

    fn push(&mut self, c: char)
        ensures
            final(self).written() == old(self).written().push(c),
            final(self).spec_dialect() == old(self).spec_dialect(),
    {
        push_char(&mut self.output, c);
    }

    /// `true` / `false`.
    pub fn serialize_bool(&mut self, v: bool)
        ensures
            final(self).written() == old(self).written() + (if v {
                seq!['t', 'r', 'u', 'e']
            } else {
                seq!['f', 'a', 'l', 's', 'e']
            }),
            final(self).spec_dialect() == old(self).spec_dialect(),
    {
        let ghost w = self.written();
        if v {
            self.push('t');
            self.push('r');
            self.push('u');
            self.push('e');
            assert(self.written() =~= w + seq!['t', 'r', 'u', 'e']);
        } else {
            self.push('f');
            self.push('a');
            self.push('l');
            self.push('s');
            self.push('e');
            assert(self.written() =~= w + seq!['f', 'a', 'l', 's', 'e']);
        }
    }

    /// Decimal text of a signed integer.
    pub fn serialize_i128(&mut self, v: i128)
        ensures
            final(self).written() == old(self).written() + int_text(v as int),
            final(self).spec_dialect() == old(self).spec_dialect(),
    {
        let ghost w = self.written();
        if v < 0 {
            self.push('-');
            let magnitude: u128 = if v == i128::MIN {
                0x8000_0000_0000_0000_0000_0000_0000_0000u128
            } else {
                (0 - v) as u128
            };
            push_decimal(&mut self.output, magnitude);
            assert(self.written() =~= w + int_text(v as int));
        } else {
            push_decimal(&mut self.output, v as u128);
        }
    }

    /// Decimal text of an unsigned integer.
    pub fn serialize_u128(&mut self, v: u128)
        ensures
            final(self).written() == old(self).written() + int_text(v as int),
            final(self).spec_dialect() == old(self).spec_dialect(),
    {
        push_decimal(&mut self.output, v);
    }

    pub fn serialize_i8(&mut self, v: i8)
        ensures
            final(self).written() == old(self).written() + int_text(v as int),
            final(self).spec_dialect() == old(self).spec_dialect(),
    {
        self.serialize_i128(v as i128)
    }

    pub fn serialize_i16(&mut self, v: i16)
        ensures
            final(self).written() == old(self).written() + int_text(v as int),
            final(self).spec_dialect() == old(self).spec_dialect(),
    {
        self.serialize_i128(v as i128)
    }

    pub fn serialize_i32(&mut self, v: i32)
        ensures
            final(self).written() == old(self).written() + int_text(v as int),
            final(self).spec_dialect() == old(self).spec_dialect(),
    {
        self.serialize_i128(v as i128)
    }

    pub fn serialize_i64(&mut self, v: i64)
        ensures
            final(self).written() == old(self).written() + int_text(v as int),
            final(self).spec_dialect() == old(self).spec_dialect(),
    {
        self.serialize_i128(v as i128)
    }

    pub fn serialize_u8(&mut self, v: u8)
        ensures
            final(self).written() == old(self).written() + int_text(v as int),
            final(self).spec_dialect() == old(self).spec_dialect(),
    {
        self.serialize_u128(v as u128)
    }

    pub fn serialize_u16(&mut self, v: u16)
        ensures
            final(self).written() == old(self).written() + int_text(v as int),
            final(self).spec_dialect() == old(self).spec_dialect(),
    {
        self.serialize_u128(v as u128)
    }

    pub fn serialize_u32(&mut self, v: u32)
        ensures
            final(self).written() == old(self).written() + int_text(v as int),
            final(self).spec_dialect() == old(self).spec_dialect(),
    {
        self.serialize_u128(v as u128)
    }

    pub fn serialize_u64(&mut self, v: u64)
        ensures
            final(self).written() == old(self).written() + int_text(v as int),
            final(self).spec_dialect() == old(self).spec_dialect(),
    {
        self.serialize_u128(v as u128)
    }

    /// Writes a string value: bare, or bracketed in nota and quoted in
    /// nexus (see [`str_literal_text`]); refuses text containing `|]`.
    pub fn write_str_literal(&mut self, v: &str) -> (r: Result<(), Error>)
        ensures
            final(self).spec_dialect() == old(self).spec_dialect(),
            has_multiline_closer(v@) ==> r == Err::<(), Error>(Error::StringContainsMultilineCloser)
                && final(self).written() == old(self).written(),
            !has_multiline_closer(v@) ==> r is Ok && final(self).written() == old(self).written()
                + str_literal_text(old(self).spec_dialect(), v@),
    {
        let chars = chars_of(v);
        if contains_multiline_closer(&chars) {
            return Err(Error::StringContainsMultilineCloser);
        }
        let ghost w = self.written();
        if bare_eligible_chars(&chars) {
            self.append(v);
            return Ok(());
        }
        if self.dialect == Dialect::Nota {
            let needs_multiline = contains_char(&chars, ']') || contains_char(&chars, '\n');
            if needs_multiline {
                self.push('[');
                self.push('|');
                self.push('\n');
                self.append(v);
                let n = chars.len();
                let ends_nl = n > 0 && chars[n - 1] == '\n';
                if !ends_nl {
                    self.push('\n');
                }
                self.push('|');
                self.push(']');
            } else {
                self.push('[');
                self.append(v);
                self.push(']');
            }
            assert(self.written() =~= w + str_literal_text(old(self).spec_dialect(), v@));
            return Ok(());
        }
        self.push('"');
        let mut i: usize = 0;
        while i < chars.len()
            invariant
                i <= chars@.len(),
                chars@ == v@,
                self.written() == w + seq!['"'] + escape_text(chars@.take(i as int)),
                self.spec_dialect() == old(self).spec_dialect(),
            decreases chars.len() - i,
        {
            let c = chars[i];
            if c == '\\' {
                self.push('\\');
                self.push('\\');
            } else if c == '"' {
                self.push('\\');
                self.push('"');
            } else if c == '\n' {
                self.push('\\');
                self.push('n');
            } else {
                self.push(c);
            }
            proof {
                let t = chars@.take(i + 1);
                assert(t.drop_last() =~= chars@.take(i as int));
                assert(t.last() == c);
            }
            i = i + 1;
            assert(self.written() =~= w + seq!['"'] + escape_text(chars@.take(i as int)));
        }
        self.push('"');
        assert(chars@.take(i as int) =~= v@);
        assert(self.written() =~= w + str_literal_text(old(self).spec_dialect(), v@));
        Ok(())
    }

    /// A string value (`serialize_str`).
    pub fn serialize_str(&mut self, v: &str) -> (r: Result<(), Error>)
        ensures
            final(self).spec_dialect() == old(self).spec_dialect(),
            has_multiline_closer(v@) ==> r == Err::<(), Error>(Error::StringContainsMultilineCloser)
                && final(self).written() == old(self).written(),
            !has_multiline_closer(v@) ==> r is Ok && final(self).written() == old(self).written()
                + str_literal_text(old(self).spec_dialect(), v@),
    {
        self.write_str_literal(v)
    }

    /// A char value, written as a one-character string.
    pub fn serialize_char(&mut self, c: char) -> (r: Result<(), Error>)
        ensures
            final(self).spec_dialect() == old(self).spec_dialect(),
            r is Ok,
            final(self).written() == old(self).written() + str_literal_text(old(self).spec_dialect(), seq![c]),
    {
        let mut s = String::new();
        push_char(&mut s, c);
        assert(s@ =~= seq![c]);
        let r = self.write_str_literal(s.as_str());
        assert(!has_multiline_closer(seq![c]));
        r
    }

    /// Appends the text of a finite float, given its shortest round-trip
    /// decimal form; see [`float_text`].
    pub fn write_float(&mut self, s: &str)
        ensures
            final(self).written() == old(self).written() + float_text(s@),
            final(self).spec_dialect() == old(self).spec_dialect(),
    {
        let chars = chars_of(s);
        let ghost w = self.written();
        if contains_char(&chars, '.') || contains_char(&chars, 'e') || contains_char(&chars, 'E') {
            self.append(s);
        } else {
            self.append(s);
            self.push('.');
            self.push('0');
            assert(self.written() =~= w + float_text(s@));
        }
    }

    /// `#` and two lowercase hex digits per byte.
    pub fn serialize_bytes(&mut self, v: &[u8])
        ensures
            final(self).written() == old(self).written() + seq!['#'] + hex_text(v@),
            final(self).spec_dialect() == old(self).spec_dialect(),
    {
        let ghost w = self.written();
        self.push('#');
        let mut i: usize = 0;
        while i < v.len()
            invariant
                i <= v@.len(),
                self.written() == w + seq!['#'] + hex_text(v@.take(i as int)),
                self.spec_dialect() == old(self).spec_dialect(),
            decreases v.len() - i,
        {
            let b = v[i];
            self.push(hex_digit_char(b / 16));
            self.push(hex_digit_char(b % 16));
            proof {
                let t = v@.take(i + 1);
                assert(t.drop_last() =~= v@.take(i as int));
                assert(t.last() == b);
            }
            i = i + 1;
            assert(self.written() =~= w + seq!['#'] + hex_text(v@.take(i as int)));
        }
        assert(v@.take(i as int) =~= v@);
    }

    /// `None`.
    pub fn serialize_none(&mut self)
        ensures
            final(self).written() == old(self).written() + seq!['N', 'o', 'n', 'e'],
            final(self).spec_dialect() == old(self).spec_dialect(),
    {
        let ghost w = self.written();
        self.push('N');
        self.push('o');
        self.push('n');
        self.push('e');
        assert(self.written() =~= w + seq!['N', 'o', 'n', 'e']);
    }

    /// The unit type has no nota form.
    pub fn serialize_unit(&self) -> (r: Result<(), Error>)
        ensures
            r == Err::<(), Error>(Error::UnitForbidden),
    {
        Err(Error::UnitForbidden)
    }

    /// A unit struct is its bare name.
    pub fn serialize_unit_struct(&mut self, name: &str)
        ensures
            final(self).written() == old(self).written() + name@,
            final(self).spec_dialect() == old(self).spec_dialect(),
    {
        self.append(name);
    }

    /// A unit variant is its bare name.
    pub fn serialize_unit_variant(&mut self, variant: &str)
        ensures
            final(self).written() == old(self).written() + variant@,
            final(self).spec_dialect() == old(self).spec_dialect(),
    {
        self.append(variant);
    }

    /// Starts a newtype struct: `(Name ` for a plain name; in nexus the
    /// sigil of a prefix sentinel, nothing for bind and atomic-batch
    /// sentinels; in nota a sentinel name is refused.
    pub fn serialize_newtype_struct(&mut self, name: &str) -> (r: Result<NewtypeForm, Error>)
        ensures
            final(self).spec_dialect() == old(self).spec_dialect(),
            match sentinel_of(name@) {
                None => r == Ok::<NewtypeForm, Error>(NewtypeForm::Plain) && final(self).written()
                    == old(self).written() + seq!['('] + name@ + seq![' '],
                Some(s) => if old(self).spec_dialect() == Dialect::Nota {
                    (r matches Err(e) && e@ == ErrorModel::Custom(sentinel_in_nota_message(name@)))
                        && final(self).written() == old(self).written()
                } else {
                    match s {
                        Sentinel::Bind => r == Ok::<NewtypeForm, Error>(NewtypeForm::Bind)
                            && final(self).written() == old(self).written(),
                        Sentinel::AtomicBatch => r == Ok::<NewtypeForm, Error>(
                            NewtypeForm::AtomicBatch,
                        ) && final(self).written() == old(self).written(),
                        _ => r == Ok::<NewtypeForm, Error>(NewtypeForm::Prefixed)
                            && final(self).written() == old(self).written().push(sigil_of(s)),
                    }
                },
            },
    {
        match sentinel(name) {
            None => {
                let ghost w = self.written();
                self.push('(');
                self.append(name);
                self.push(' ');
                assert(self.written() =~= w + seq!['('] + name@ + seq![' ']);
                Ok(NewtypeForm::Plain)
            },
            Some(s) => {
                if self.dialect == Dialect::Nota {
                    let mut msg = String::from_str("sentinel newtype-struct `");
                    msg.append(name);
                    msg.append(
                        "` is not valid in nota dialect; serialize via nexus (`to_string_nexus`) instead",
                    );
                    return Err(Error::Custom(msg));
                }
                match s {
                    Sentinel::Bind => Ok(NewtypeForm::Bind),
                    Sentinel::AtomicBatch => Ok(NewtypeForm::AtomicBatch),
                    Sentinel::Mutate => {
                        self.push('~');
                        Ok(NewtypeForm::Prefixed)
                    },
                    Sentinel::Negate => {
                        self.push('!');
                        Ok(NewtypeForm::Prefixed)
                    },
                    Sentinel::Validate => {
                        self.push('?');
                        Ok(NewtypeForm::Prefixed)
                    },
                    Sentinel::Subscribe => {
                        self.push('*');
                        Ok(NewtypeForm::Prefixed)
                    },
                }
            },
        }
    }

    /// Closes a plain newtype struct or a payload variant: `)`.
    pub fn close_newtype(&mut self)
        ensures
            final(self).written() == old(self).written().push(')'),
            final(self).spec_dialect() == old(self).spec_dialect(),
    {
        self.push(')');
    }

    /// Writes a bind `@name`; refuses names that are not bind names.
    pub fn serialize_bind(&mut self, name: &str) -> (r: Result<(), Error>)
        ensures
            final(self).spec_dialect() == old(self).spec_dialect(),
            bind_name(name@) ==> r is Ok && final(self).written() == old(self).written() + seq!['@']
                + name@,
            !bind_name(name@) ==> (r matches Err(e) && e@ == ErrorModel::Custom(
                bad_bind_message(name@),
            )) && final(self).written() == old(self).written(),
    {
        let chars = chars_of(name);
        let n = chars.len();
        let mut ok = n > 0 && ((chars[0] >= 'a' && chars[0] <= 'z') || chars[0] == '_');
        if ok {
            let mut i: usize = 1;
            while i < n && ident_continue_char(chars[i])
                invariant
                    chars@ == name@,
                    n == chars@.len(),
                    1 <= i <= n,
                    forall|k: int| 1 <= k < i ==> is_ident_continue_char(#[trigger] chars@[k]),
                decreases n - i,
            {
                i = i + 1;
            }
            ok = i == n;
            proof {
                if !ok {
                    assert(!is_ident_continue_char(chars@[i as int]));
                }
            }
        }
        if ok {
            let kw = (n == 4 && chars[0] == 't' && chars[1] == 'r' && chars[2] == 'u' && chars[3]
                == 'e') || (n == 5 && chars[0] == 'f' && chars[1] == 'a' && chars[2] == 'l'
                && chars[3] == 's' && chars[4] == 'e');
            proof {
                if kw {
                    if n == 4 {
                        assert(chars@ =~= seq!['t', 'r', 'u', 'e']);
                    } else {
                        assert(chars@ =~= seq!['f', 'a', 'l', 's', 'e']);
                    }
                } else {
                    if chars@ == seq!['t', 'r', 'u', 'e'] {
                        assert(chars@[1] == 'r' && chars@[2] == 'u' && chars@[3] == 'e');
                    }
                    if chars@ == seq!['f', 'a', 'l', 's', 'e'] {
                        assert(chars@[1] == 'a' && chars@[2] == 'l' && chars@[3] == 's' && chars@[4]
                            == 'e');
                    }
                }
            }
            ok = !kw;
        }
        if !ok {
            let mut msg = String::from_str("bind name `");
            msg.append(name);
            msg.append("` must be an identifier starting with a lowercase letter or `_`");
            return Err(Error::Custom(msg));
        }
        let ghost w = self.written();
        self.push('@');
        self.append(name);
        assert(self.written() =~= w + seq!['@'] + name@);
        Ok(())
    }

    /// Starts a payload variant `(Variant ` (newtype variants).
    pub fn serialize_newtype_variant(&mut self, variant: &str)
        ensures
            final(self).written() == old(self).written() + seq!['('] + variant@ + seq![' '],
            final(self).spec_dialect() == old(self).spec_dialect(),
    {
        let ghost w = self.written();
        self.push('(');
        self.append(variant);
        self.push(' ');
        assert(self.written() =~= w + seq!['('] + variant@ + seq![' ']);
    }

    /// Starts a sequence (or tuple): `<` in nota, `[` in nexus.
    pub fn serialize_seq(&mut self) -> (s: SeqSerializer)
        ensures
            final(self).written() == old(self).written().push(seq_open_char(old(self).spec_dialect())),
            final(self).spec_dialect() == old(self).spec_dialect(),
            s.is_first(),
            !s.is_batch(),
    {
        if self.dialect == Dialect::Nota {
            self.push('<');
        } else {
            self.push('[');
        }
        SeqSerializer { first: true, batch: false }
    }

    /// Starts the item list of an atomic batch: `[|`.
    pub fn serialize_atomic_batch(&mut self) -> (s: SeqSerializer)
        ensures
            final(self).written() == old(self).written() + seq!['[', '|'],
            final(self).spec_dialect() == old(self).spec_dialect(),
            s.is_first(),
            s.is_batch(),
    {
        let ghost w = self.written();
        self.push('[');
        self.push('|');
        assert(self.written() =~= w + seq!['[', '|']);
        SeqSerializer { first: true, batch: true }
    }

    /// Multi-field tuple structs have no field names: always refused.
    pub fn serialize_tuple_struct(&self, name: &str, len: usize) -> (r: Result<
        NamedSeqSerializer,
        Error,
    >)
        ensures
            r matches Err(e) && e@ == (ErrorModel::MultiFieldTupleStructForbidden {
                name: name@,
                len,
            }),
    {
        Err(Error::MultiFieldTupleStructForbidden { name: String::from_str(name), len })
    }

    /// Multi-field tuple variants have no field names: always refused.
    pub fn serialize_tuple_variant(&self, variant: &str, len: usize) -> (r: Result<
        NamedSeqSerializer,
        Error,
    >)
        ensures
            r matches Err(e) && e@ == (ErrorModel::MultiFieldTupleStructForbidden {
                name: variant@,
                len,
            }),
    {
        Err(Error::MultiFieldTupleStructForbidden { name: String::from_str(variant), len })
    }

    /// Starts a map; nothing is written until [`MapSerializer::end`].
    pub fn serialize_map(&self) -> (m: MapSerializer)
        ensures
            m.entries() == Seq::<EntryModel>::empty(),
            m.pending_key() is None,
    {
        MapSerializer { entries: Vec::new(), current_key: None }
    }

    /// Starts a record `(Name`.
    pub fn serialize_struct(&mut self, name: &str) -> (s: StructSerializer)
        ensures
            final(self).written() == old(self).written() + seq!['('] + name@,
            final(self).spec_dialect() == old(self).spec_dialect(),
    {
        let ghost w = self.written();
        self.push('(');
        self.append(name);
        assert(self.written() =~= w + seq!['('] + name@);
        StructSerializer
    }

    /// Starts a struct variant `(Variant`.
    pub fn serialize_struct_variant(&mut self, variant: &str) -> (s: StructSerializer)
        ensures
            final(self).written() == old(self).written() + seq!['('] + variant@,
            final(self).spec_dialect() == old(self).spec_dialect(),
    {
        let ghost w = self.written();
        self.push('(');
        self.append(variant);
        assert(self.written() =~= w + seq!['('] + variant@);
        StructSerializer
    }
}

// ---------- sub-serializers ----------

/// State of a sequence being written: whether an element has been
/// written yet, and whether it is an atomic batch (`[| |]`) rather than
/// `< >` (`[ ]` in nexus).
pub struct SeqSerializer {
    first: bool,
    batch: bool,
}

impl SeqSerializer {
    pub closed spec fn is_first(&self) -> bool {
        self.first
    }

    pub closed spec fn is_batch(&self) -> bool {
        self.batch
    }

    /// Writes what precedes the next element: a space, except before the
    /// first one.
    pub fn element(&mut self, ser: &mut Serializer)
        ensures
            final(ser).written() == old(ser).written() + (if old(self).is_first()
                && !old(self).is_batch() {
                seq![]
            } else {
                seq![' ']
            }),
            final(ser).spec_dialect() == old(ser).spec_dialect(),
            !final(self).is_first(),
            final(self).is_batch() == old(self).is_batch(),
    {
        let ghost w = ser.written();
        if !self.first || self.batch {
            ser.push(' ');
        } else {
            assert(ser.written() =~= w + seq![]);
        }
        self.first = false;
    }

    /// Closes the sequence: `>` (`]` in nexus), or ` |]` (`|]` when empty)
    /// for a batch.
    pub fn close(self, ser: &mut Serializer)
        ensures
            final(ser).written() == old(ser).written() + (if !self.is_batch() {
                seq![seq_close_char(old(ser).spec_dialect())]
            } else if self.is_first() {
                seq!['|', ']']
            } else {
                seq![' ', '|', ']']
            }),
            final(ser).spec_dialect() == old(ser).spec_dialect(),
    {
        let ghost w = ser.written();
        if !self.batch {
            if ser.dialect == Dialect::Nota {
                ser.push('>');
            } else {
                ser.push(']');
            }
            assert(ser.written() =~= w + seq![seq_close_char(old(ser).spec_dialect())]);
        } else {
            if !self.first {
                ser.push(' ');
            }
            ser.push('|');
            ser.push(']');
            assert(ser.written() =~= w + (if self.first {
                seq!['|', ']']
            } else {
                seq![' ', '|', ']']
            }));
        }
    }
}

/// Fields of a multi-field tuple struct or variant, each after a space.
/// (Never produced: such structs are refused.)
pub struct NamedSeqSerializer;

impl NamedSeqSerializer {
    pub fn field(&mut self, ser: &mut Serializer)
        ensures
            final(ser).written() == old(ser).written().push(' '),
            final(ser).spec_dialect() == old(ser).spec_dialect(),
    {
        ser.push(' ');
    }

    pub fn close(self, ser: &mut Serializer)
        ensures
            final(ser).written() == old(ser).written().push(')'),
            final(ser).spec_dialect() == old(ser).spec_dialect(),
    {
        ser.push(')');
    }
}

/// Fields of a record: positional, each after a space, then `)`.
pub struct StructSerializer;

impl StructSerializer {
    /// Writes what precedes a field value: one space. The field name is
    /// not written (records are positional).
    pub fn field(&mut self, ser: &mut Serializer)
        ensures
            final(ser).written() == old(ser).written().push(' '),
            final(ser).spec_dialect() == old(ser).spec_dialect(),
    {
        ser.push(' ');
    }

    pub fn close(self, ser: &mut Serializer)
        ensures
            final(ser).written() == old(ser).written().push(')'),
            final(ser).spec_dialect() == old(ser).spec_dialect(),
    {
        ser.push(')');
    }
}

/// Entries of a map being written: each key and value is first written
/// on its own, then all are sorted by key when the map ends.
pub struct MapSerializer {
    entries: Vec<(String, String)>,
    current_key: Option<String>,
}

impl MapSerializer {
    /// The complete entries, in the order they were given.
    pub closed spec fn entries(&self) -> Seq<EntryModel> {
        entries_model(self.entries@)
    }

    /// A key waiting for its value.
    pub closed spec fn pending_key(&self) -> Option<Seq<char>> {
        match self.current_key {
            Some(k) => Some(k@),
            None => None,
        }
    }

    /// Records the written text of the next key.
    pub fn serialize_key(&mut self, key: String)
        ensures
            final(self).entries() == old(self).entries(),
            final(self).pending_key() == Some(key@),
    {
        self.current_key = Some(key);
    }

    /// Pairs the written text of a value with the pending key.
    pub fn serialize_value(&mut self, value: String) -> (r: Result<(), Error>)
        ensures
            old(self).pending_key() matches Some(k) ==> r is Ok && final(self).entries()
                == old(self).entries().push((k, value@)) && final(self).pending_key() is None,
            old(self).pending_key() is None ==> r == Err::<(), Error>(Error::MapValueWithoutKey)
                && final(self).entries() == old(self).entries() && final(self).pending_key() is None,
    {
        let key = self.current_key.take();
        match key {
            Some(k) => {
                let ghost before = self.entries@;
                self.entries.push((k, value));
                assert(self.entries() =~= entries_model(before).push((k@, value@)));
                Ok(())
            },
            None => Err(Error::MapValueWithoutKey),
        }
    }

    /// Sorts the entries by key bytes (stable) and writes
    /// `<(k v) (k v) …>` (`[(k v) …]` in nexus).
    pub fn end(self, ser: &mut Serializer)
        ensures
            final(ser).written() == old(ser).written() + map_text(old(ser).spec_dialect(), self.entries()),
            final(ser).spec_dialect() == old(ser).spec_dialect(),
    {
        let ghost model = self.entries();
        let sorted = sort_by_key(self.entries);
        let ghost w = ser.written();
        let ghost open = seq_open_char(ser.spec_dialect());
        let nota = ser.dialect == Dialect::Nota;
        if nota {
            ser.push('<');
        } else {
            ser.push('[');
        }
        let mut i: usize = 0;
        while i < sorted.len()
            invariant
                i <= sorted@.len(),
                entries_model(sorted@) == sort_entries(model),
                nota == (ser.spec_dialect() == Dialect::Nota),
                ser.written() == w + seq![open] + entries_text(entries_model(sorted@).take(i as int)),
                ser.spec_dialect() == old(ser).spec_dialect(),
            decreases sorted.len() - i,
        {
            let ghost before = ser.written();
            let ghost prefix = entries_model(sorted@).take(i as int);
            let ghost next = entries_model(sorted@).take(i + 1);
            if i > 0 {
                ser.push(' ');
            }
            ser.push('(');
            ser.append(sorted[i].0.as_str());
            ser.push(' ');
            ser.append(sorted[i].1.as_str());
            ser.push(')');
            proof {
                let e = entries_model(sorted@)[i as int];
                assert(next.drop_last() =~= prefix);
                assert(next.last() == e);
                if i > 0 {
                    assert(entries_text(next) == entries_text(prefix) + seq![' '] + entry_text(e));
                    assert(ser.written() =~= before + seq![' '] + entry_text(e));
                } else {
                    assert(prefix =~= seq![]);
                    assert(entries_text(next) == entry_text(e));
                    assert(ser.written() =~= before + entry_text(e));
                }
                assert(ser.written() =~= w + seq![open] + entries_text(next));
            }
            i = i + 1;
        }
        if nota {
            ser.push('>');
        } else {
            ser.push(']');
        }
        proof {
            assert(entries_model(sorted@).take(i as int) =~= entries_model(sorted@));
            assert(ser.written() =~= w + map_text(old(ser).spec_dialect(), model));
        }
    }
}

/// `bytes_lt(a, b)` on byte slices.
fn bytes_less(a: &[u8], b: &[u8]) -> (r: bool)
    ensures
        r == bytes_lt(a@, b@),
{
    let mut i: usize = 0;
    assert(a@.skip(0) =~= a@);
    assert(b@.skip(0) =~= b@);
    while i < a.len() && i < b.len() && a[i] == b[i]
        invariant
            i <= a@.len(),
            i <= b@.len(),
            bytes_lt(a@.skip(i as int), b@.skip(i as int)) == bytes_lt(a@, b@),
        decreases a.len() - i,
    {
        proof {
            assert(a@.skip(i as int).drop_first() =~= a@.skip(i + 1));
            assert(b@.skip(i as int).drop_first() =~= b@.skip(i + 1));
        }
        i = i + 1;
    }
    if i == a.len() {
        i < b.len()
    } else if i == b.len() {
        false
    } else {
        a[i] < b[i]
    }
}

/// Stable insertion sort of the entries by the UTF-8 bytes of the key.
fn sort_by_key(entries: Vec<(String, String)>) -> (sorted: Vec<(String, String)>)
    ensures
        entries_model(sorted@) == sort_entries(entries_model(entries@)),
{
    let mut sorted: Vec<(String, String)> = Vec::new();
    let mut rest = entries;
    let ghost all = entries_model(rest@);
    let ghost mut k: int = 0;
    proof {
        assert(all.take(0) =~= seq![]);
        assert(rest@.len() == all.len());
    }
    while rest.len() > 0
        invariant
            0 <= k <= all.len(),
            entries_model(rest@) == all.skip(k),
            entries_model(sorted@) == sort_entries(all.take(k)),
        decreases rest.len(),
    {
        let ghost before = rest@;
        let e = rest.remove(0);
        let ghost em = (e.0@, e.1@);
        proof {
            assert(before.len() > 0);
            assert(entries_model(before).len() == before.len());
            assert(entries_model(before)[0] == em);
            assert(all.skip(k)[0] == all[k]);
            assert forall|i: int| 0 <= i < rest@.len() implies #[trigger] entries_model(rest@)[i]
                == entries_model(before)[i + 1] by {
                assert(rest@[i] == before[i + 1]);
            }
            assert(entries_model(rest@) =~= all.skip(k + 1));
            assert(all.take(k + 1).drop_last() =~= all.take(k));
            assert(all.take(k + 1).last() == em);
        }
        // Position: after every entry whose key does not sort after `e`.
        let mut j: usize = 0;
        proof {
            let sm0 = entries_model(sorted@);
            assert(sm0.take(0) =~= seq![]);
            assert(sm0.skip(0) =~= sm0);
            assert(sm0.take(0) + insert_by_key(sm0.skip(0), em) =~= insert_by_key(sm0, em));
        }
        while j < sorted.len() && !bytes_less(e.0.as_str().as_bytes(), sorted[j].0.as_str().as_bytes())
            invariant
                j <= sorted@.len(),
                em == (e.0@, e.1@),
                insert_by_key(entries_model(sorted@), em) == entries_model(sorted@).take(j as int)
                    + insert_by_key(entries_model(sorted@).skip(j as int), em),
            decreases sorted.len() - j,
        {
            proof {
                let sm = entries_model(sorted@);
                let t = sm.skip(j as int);
                assert(t[0] == (sorted@[j as int].0@, sorted@[j as int].1@));
                assert(!key_after(t[0], em));
                assert(t.drop_first() =~= sm.skip(j + 1));
                assert(insert_by_key(t, em) == seq![t[0]] + insert_by_key(t.drop_first(), em));
                assert(sm.take(j + 1) =~= sm.take(j as int).push(t[0]));
                assert(sm.take(j as int) + (seq![t[0]] + insert_by_key(sm.skip(j + 1), em))
                    =~= sm.take(j + 1) + insert_by_key(sm.skip(j + 1), em));
            }
            j = j + 1;
        }
        let ghost sm = entries_model(sorted@);
        proof {
            let t = sm.skip(j as int);
            if j < sorted@.len() {
                assert(t[0] == (sorted@[j as int].0@, sorted@[j as int].1@));
                assert(key_after(t[0], em));
            } else {
                assert(t =~= seq![]);
            }
            assert(insert_by_key(t, em) == seq![em] + t);
        }
        let ghost sv = sorted@;
        sorted.insert(j, e);
        proof {
            assert(entries_model(sorted@) =~= sm.take(j as int) + (seq![em] + sm.skip(j as int)));
            k = k + 1;
        }
    }
    proof {
        assert(all.skip(k).len() == 0);
        assert(all.take(k) =~= all);
    }
    sorted
}

} // verus!
