//! Reader: the token-level steps of parsing nota / nexus text into
//! typed values.
//!
//! A [`Deserializer`] owns a token stream (a lexer plus one token of
//! lookahead). Each reading step consumes the tokens one kind of value
//! is made of and returns the plain value, or the error the text
//! deserves. A schema-driven driver calls these steps in the order its
//! types demand.
//!
//! Every step is stated over the stream state: the lexer position and
//! the looked-ahead token. [`first_of`] is the next token (or lexing
//! error) the stream yields from a state; [`advance`] the state after it.

use vstd::prelude::*;
use vstd::string::StringExecFns;

use crate::error::{Error, ErrorModel, HeadKind, IntWidth, LexError, option_token_model};
use crate::lexer::{
    AliasState, Dialect, Lexer, Token, TokenModel, alias_after, next_in_state, public_outcome,
};
use crate::ser::{
    ATOMIC_BATCH_SENTINEL, BIND_SENTINEL, MUTATE_SENTINEL, NEGATE_SENTINEL, SUBSCRIBE_SENTINEL,
    Sentinel, VALIDATE_SENTINEL, chars_of, is_pascal_case, pascal_case, sentinel, sentinel_of, str_eq,
};
use crate::message::{custom, lex_error_text};
use crate::text::push_char;

verus! {

/// Where a token stream stands: the lexer position and what the lexer
/// remembers of the tokens it read, and the token read ahead, if any.
pub struct StreamState {
    pub pos: int,
    pub alias: AliasState,
    pub peeked: Option<TokenModel>,
}

/// The next token the stream yields from `st` (or the lexing error), and
/// the lexer position after it.
pub open spec fn first_of(d: Dialect, s: Seq<u8>, st: StreamState) -> (
    Result<Option<TokenModel>, LexError>,
    int,
) {
    match st.peeked {
        Some(t) => (Ok(Some(t)), st.pos),
        None => next_in_state(d, s, st.pos, st.alias),
    }
}

/// The lexer's memory after the next token has been read from `st`.
pub open spec fn alias_then(d: Dialect, s: Seq<u8>, st: StreamState) -> AliasState {
    match st.peeked {
        Some(_) => st.alias,
        None => alias_after(st.alias, first_of(d, s, st).0),
    }
}

/// The state after the next token has been taken.
pub open spec fn advance(d: Dialect, s: Seq<u8>, st: StreamState) -> StreamState {
    StreamState { pos: first_of(d, s, st).1, alias: alias_then(d, s, st), peeked: None }
}

/// The state after the next token has been looked at (and kept).
pub open spec fn look(d: Dialect, s: Seq<u8>, st: StreamState) -> StreamState {
    match st.peeked {
        Some(_) => st,
        None => StreamState {
            pos: first_of(d, s, st).1,
            alias: alias_then(d, s, st),
            peeked: match first_of(d, s, st).0 {
                Ok(Some(t)) => Some(t),
                _ => None,
            },
        },
    }
}

/// Outcome of a step that needs one more token: the lexing error, the
/// end of the input, or what `f` makes of the token.
pub open spec fn with_next<X>(
    s: Seq<u8>,
    m: Result<Option<TokenModel>, LexError>,
    f: spec_fn(TokenModel) -> Result<X, ErrorModel>,
) -> Result<X, ErrorModel> {
    match m {
        Err(x) => Err(ErrorModel::Custom(lex_error_text(s, x))),
        Ok(None) => Err(custom(ErrorModel::UnexpectedEnd)),
        Ok(Some(t)) => f(t),
    }
}

pub open spec fn result_model<X>(r: Result<X, Error>) -> Result<X, ErrorModel> {
    match r {
        Ok(x) => Ok(x),
        Err(e) => Err(e@),
    }
}

pub open spec fn string_result_model(r: Result<String, Error>) -> Result<Seq<char>, ErrorModel> {
    match r {
        Ok(x) => Ok(x@),
        Err(e) => Err(e@),
    }
}

pub open spec fn token_result_model(r: Result<Token, Error>) -> Result<TokenModel, ErrorModel> {
    match r {
        Ok(x) => Ok(x@),
        Err(e) => Err(e@),
    }
}

// ---------- token-level reading rules ----------

/// The token, whatever it is.
pub open spec fn any_token(t: TokenModel) -> Result<TokenModel, ErrorModel> {
    Ok(t)
}

/// Exactly the token `expected`.
pub open spec fn matching(expected: TokenModel, t: TokenModel) -> Result<(), ErrorModel> {
    if t == expected {
        Ok(())
    } else {
        Err(custom(ErrorModel::ExpectedToken { expected, got: t }))
    }
}

/// A PascalCase identifier in head position.
pub open spec fn pascal_head(kind: HeadKind, t: TokenModel) -> Result<Seq<char>, ErrorModel> {
    match t {
        TokenModel::Ident(s) => if pascal_case(s) {
            Ok(s)
        } else {
            Err(custom(ErrorModel::HeadNotPascalCase { kind, name: s }))
        },
        other => Err(custom(ErrorModel::ExpectedHead { kind, got: other })),
    }
}

pub open spec fn bool_of(t: TokenModel) -> Result<bool, ErrorModel> {
    match t {
        TokenModel::Bool(b) => Ok(b),
        other => Err(custom(ErrorModel::ExpectedBool { got: other })),
    }
}

/// An integer that fits `i128`.
pub open spec fn signed_of(t: TokenModel) -> Result<i128, ErrorModel> {
    match t {
        TokenModel::Int(i) => Ok(i),
        TokenModel::UInt(u) => Err(custom(ErrorModel::IntegerTooLarge { value: u })),
        other => Err(custom(ErrorModel::ExpectedInteger { got: other })),
    }
}

/// A non-negative integer.
pub open spec fn unsigned_of(t: TokenModel) -> Result<u128, ErrorModel> {
    match t {
        TokenModel::Int(i) => if i >= 0 {
            Ok(i as u128)
        } else {
            Err(custom(ErrorModel::NegativeUnsigned { value: i }))
        },
        TokenModel::UInt(u) => Ok(u),
        other => Err(custom(ErrorModel::ExpectedInteger { got: other })),
    }
}

pub open spec fn width_min(w: IntWidth) -> int {
    match w {
        IntWidth::I8 => i8::MIN as int,
        IntWidth::I16 => i16::MIN as int,
        IntWidth::I32 => i32::MIN as int,
        IntWidth::I64 => i64::MIN as int,
        _ => 0,
    }
}

pub open spec fn width_max(w: IntWidth) -> int {
    match w {
        IntWidth::I8 => i8::MAX as int,
        IntWidth::I16 => i16::MAX as int,
        IntWidth::I32 => i32::MAX as int,
        IntWidth::I64 => i64::MAX as int,
        IntWidth::U8 => u8::MAX as int,
        IntWidth::U16 => u16::MAX as int,
        IntWidth::U32 => u32::MAX as int,
        IntWidth::U64 => u64::MAX as int,
    }
}

/// A signed integer within the range of `w`.
pub open spec fn signed_in(w: IntWidth, t: TokenModel) -> Result<i128, ErrorModel> {
    match signed_of(t) {
        Ok(i) => if width_min(w) <= i <= width_max(w) {
            Ok(i)
        } else {
            Err(custom(ErrorModel::SignedOutOfRange { value: i, width: w }))
        },
        Err(e) => Err(e),
    }
}

/// An unsigned integer within the range of `w`.
pub open spec fn unsigned_in(w: IntWidth, t: TokenModel) -> Result<u128, ErrorModel> {
    match unsigned_of(t) {
        Ok(u) => if u <= width_max(w) {
            Ok(u)
        } else {
            Err(custom(ErrorModel::UnsignedOutOfRange { value: u, width: w }))
        },
        Err(e) => Err(e),
    }
}

/// What a float field can be read from.
#[derive(Debug)]
pub enum FloatSource {
    /// Float literal text (a valid Rust float literal).
    Text(String),
    Int(i128),
    UInt(u128),
}

pub enum FloatSourceModel {
    Text(Seq<char>),
    Int(i128),
    UInt(u128),
}

pub open spec fn float_of(t: TokenModel) -> Result<FloatSourceModel, ErrorModel> {
    match t {
        TokenModel::Float(f) => Ok(FloatSourceModel::Text(f)),
        TokenModel::Int(i) => Ok(FloatSourceModel::Int(i)),
        TokenModel::UInt(u) => Ok(FloatSourceModel::UInt(u)),
        other => Err(custom(ErrorModel::ExpectedFloat { got: other })),
    }
}

pub open spec fn float_result_model(r: Result<FloatSource, Error>) -> Result<FloatSourceModel, ErrorModel> {
    match r {
        Ok(FloatSource::Text(s)) => Ok(FloatSourceModel::Text(s@)),
        Ok(FloatSource::Int(i)) => Ok(FloatSourceModel::Int(i)),
        Ok(FloatSource::UInt(u)) => Ok(FloatSourceModel::UInt(u)),
        Err(e) => Err(e@),
    }
}

/// A single character, from a string or an identifier.
pub open spec fn char_of(t: TokenModel) -> Result<char, ErrorModel> {
    match t {
        TokenModel::Str(s) => if s.len() == 0 {
            Err(custom(ErrorModel::EmptyCharText { from_ident: false }))
        } else if s.len() > 1 {
            Err(custom(ErrorModel::ExpectedSingleChar { text: s }))
        } else {
            Ok(s[0])
        },
        TokenModel::Ident(s) => if s.len() == 0 {
            Err(custom(ErrorModel::EmptyCharText { from_ident: true }))
        } else if s.len() > 1 {
            Err(custom(ErrorModel::ExpectedSingleChar { text: s }))
        } else {
            Ok(s[0])
        },
        other => Err(custom(ErrorModel::ExpectedCharText { got: other })),
    }
}

/// A string value: a string token (quoted, or bracketed in nota) or a
/// bare identifier.
pub open spec fn string_of(t: TokenModel) -> Result<Seq<char>, ErrorModel> {
    match t {
        TokenModel::Str(s) => Ok(s),
        TokenModel::Ident(s) => Ok(s),
        other => Err(custom(ErrorModel::ExpectedString { got: other })),
    }
}

pub open spec fn bytes_of(t: TokenModel) -> Result<Seq<u8>, ErrorModel> {
    match t {
        TokenModel::Bytes(b) => Ok(b),
        other => Err(custom(ErrorModel::ExpectedBytes { got: other })),
    }
}

pub open spec fn identifier_of(t: TokenModel) -> Result<Seq<char>, ErrorModel> {
    match t {
        TokenModel::Ident(s) => Ok(s),
        other => Err(custom(ErrorModel::ExpectedIdentifier { got: other })),
    }
}

pub open spec fn ident_after_at(t: TokenModel) -> Result<Seq<char>, ErrorModel> {
    match t {
        TokenModel::Ident(s) => Ok(s),
        other => Err(custom(ErrorModel::ExpectedIdentAfterAt { got: other })),
    }
}

/// The identifier `None`.
pub open spec fn is_none_ident(t: Option<TokenModel>) -> bool {
    t == Some(TokenModel::Ident(seq!['N', 'o', 'n', 'e']))
}

// ---------- helpers ----------

fn bytes_eq(a: &Vec<u8>, b: &Vec<u8>) -> (r: bool)
    ensures
        r == (a@ == b@),
{
    if a.len() != b.len() {
        return false;
    }
    let mut i: usize = 0;
    while i < a.len()
        invariant
            a@.len() == b@.len(),
            i <= a@.len(),
            forall|k: int| 0 <= k < i ==> a@[k] == b@[k],
        decreases a.len() - i,
    {
        if a[i] != b[i] {
            return false;
        }
        i = i + 1;
    }
    assert(a@ =~= b@);
    true
}

/// The token that opens a sequence or map: `<` in nota, `[` in nexus.
pub open spec fn seq_open_token(d: Dialect) -> TokenModel {
    if d == Dialect::Nota {
        TokenModel::LAngle
    } else {
        TokenModel::LBracket
    }
}

/// The token that closes a sequence or map: `>` in nota, `]` in nexus.
pub open spec fn seq_close_token(d: Dialect) -> TokenModel {
    if d == Dialect::Nota {
        TokenModel::RAngle
    } else {
        TokenModel::RBracket
    }
}

/// Token equality by value.
pub fn same_token(a: &Token, b: &Token) -> (r: bool)
    ensures
        r == (a@ == b@),
{
    match (a, b) {
        (Token::LParen, Token::LParen) => true,
        (Token::RParen, Token::RParen) => true,
        (Token::LBracket, Token::LBracket) => true,
        (Token::RBracket, Token::RBracket) => true,
        (Token::LAngle, Token::LAngle) => true,
        (Token::RAngle, Token::RAngle) => true,
        (Token::Equals, Token::Equals) => true,
        (Token::Colon, Token::Colon) => true,
        (Token::Bool(x), Token::Bool(y)) => *x == *y,
        (Token::Int(x), Token::Int(y)) => *x == *y,
        (Token::UInt(x), Token::UInt(y)) => *x == *y,
        (Token::Float(x), Token::Float(y)) => str_eq(x.as_str(), y.as_str()),
        (Token::Str(x), Token::Str(y)) => str_eq(x.as_str(), y.as_str()),
        (Token::Bytes(x), Token::Bytes(y)) => bytes_eq(x, y),
        (Token::Ident(x), Token::Ident(y)) => str_eq(x.as_str(), y.as_str()),
        (Token::Tilde, Token::Tilde) => true,
        (Token::At, Token::At) => true,
        (Token::Bang, Token::Bang) => true,
        (Token::Question, Token::Question) => true,
        (Token::Star, Token::Star) => true,
        (Token::LBrace, Token::LBrace) => true,
        (Token::RBrace, Token::RBrace) => true,
        (Token::LBracePipe, Token::LBracePipe) => true,
        (Token::RBracePipe, Token::RBracePipe) => true,
        (Token::LParenPipe, Token::LParenPipe) => true,
        (Token::RParenPipe, Token::RParenPipe) => true,
        (Token::LBracketPipe, Token::LBracketPipe) => true,
        (Token::RBracketPipe, Token::RBracketPipe) => true,
        _ => false,
    }
}

// ---------- the token stream ----------

struct TokenStream<'a> {
    lexer: Lexer<'a>,
    peeked: Option<Token>,
}

impl<'a> TokenStream<'a> {
    closed spec fn text(&self) -> Seq<u8> {
        self.lexer.text()
    }

    closed spec fn dialect_of(&self) -> Dialect {
        self.lexer.spec_dialect()
    }

    closed spec fn state(&self) -> StreamState {
        StreamState {
            pos: self.lexer.position(),
            alias: self.lexer.alias_state(),
            peeked: match self.peeked {
                Some(t) => Some(t@),
                None => None,
            },
        }
    }

    closed spec fn first(&self) -> (Result<Option<TokenModel>, LexError>, int) {
        first_of(self.dialect_of(), self.text(), self.state())
    }

    fn new(input: &'a str, dialect: Dialect) -> (t: Self)
        ensures
            t.text() == vstd::string::StringSliceAdditionalSpecFns::spec_bytes(input),
            t.dialect_of() == dialect,
            t.state() == (StreamState { pos: 0, alias: AliasState::Other, peeked: None }),
    {
        Self { lexer: Lexer::with_dialect(input, dialect), peeked: None }
    }

    fn peek(&mut self) -> (r: Result<Option<Token>, Error>)
        ensures
            final(self).text() == old(self).text(),
            final(self).dialect_of() == old(self).dialect_of(),
            final(self).state() == look(old(self).dialect_of(), old(self).text(), old(self).state()),
            public_outcome(r, old(self).first().0, old(self).text()),
    {
        if self.peeked.is_none() {
            match self.lexer.next_token() {
                Ok(t) => {
                    self.peeked = t;
                },
                Err(e) => {
                    return Err(e);
                },
            }
        }
        match &self.peeked {
            Some(t) => Ok(Some(t.duplicate())),
            None => Ok(None),
        }
    }

    fn next(&mut self) -> (r: Result<Option<Token>, Error>)
        ensures
            final(self).text() == old(self).text(),
            final(self).dialect_of() == old(self).dialect_of(),
            final(self).state() == advance(old(self).dialect_of(), old(self).text(), old(self).state()),
            public_outcome(r, old(self).first().0, old(self).text()),
    {
        match self.peeked.take() {
            Some(t) => Ok(Some(t)),
            None => self.lexer.next_token(),
        }
    }

    fn expect_next(&mut self) -> (r: Result<Token, Error>)
        ensures
            final(self).text() == old(self).text(),
            final(self).dialect_of() == old(self).dialect_of(),
            final(self).state() == advance(old(self).dialect_of(), old(self).text(), old(self).state()),
            token_result_model(r) == with_next(old(self).text(), old(self).first().0, |t: TokenModel| any_token(t)),
    {
        match self.next() {
            Ok(Some(t)) => Ok(t),
            Ok(None) => Err(Error::UnexpectedEnd.into_custom()),
            Err(e) => Err(e),
        }
    }

    fn expect_matching(&mut self, expected: &Token) -> (r: Result<(), Error>)
        ensures
            final(self).text() == old(self).text(),
            final(self).dialect_of() == old(self).dialect_of(),
            final(self).state() == advance(old(self).dialect_of(), old(self).text(), old(self).state()),
            result_model(r) == with_next(
                old(self).text(),
                old(self).first().0,
                |t: TokenModel| matching(expected@, t),
            ),
    {
        let got = match self.expect_next() {
            Ok(t) => t,
            Err(e) => return Err(e),
        };
        if same_token(&got, expected) {
            Ok(())
        } else {
            Err(Error::ExpectedToken { expected: expected.duplicate(), got }.into_custom())
        }
    }

    /// Consumes a PascalCase identifier in head position.
    fn expect_pascal_head(&mut self, kind: HeadKind) -> (r: Result<String, Error>)
        ensures
            final(self).text() == old(self).text(),
            final(self).dialect_of() == old(self).dialect_of(),
            final(self).state() == advance(old(self).dialect_of(), old(self).text(), old(self).state()),
            string_result_model(r) == with_next(
                old(self).text(),
                old(self).first().0,
                |t: TokenModel| pascal_head(kind, t),
            ),
    {
        match self.expect_next() {
            Ok(Token::Ident(s)) => {
                if !is_pascal_case(s.as_str()) {
                    return Err(Error::HeadNotPascalCase { kind, name: s }.into_custom());
                }
                Ok(s)
            },
            Ok(other) => Err(Error::ExpectedHead { kind, got: other }.into_custom()),
            Err(e) => Err(e),
        }
    }
}

// ---------- integer and float conversions ----------

pub fn int_to_i128(t: Token) -> (r: Result<i128, Error>)
    ensures
        result_model(r) == signed_of(t@),
{
    match t {
        Token::Int(i) => Ok(i),
        Token::UInt(u) => Err(Error::IntegerTooLarge { value: u }.into_custom()),
        other => Err(Error::ExpectedInteger { got: other }.into_custom()),
    }
}

pub fn int_to_u128(t: Token) -> (r: Result<u128, Error>)
    ensures
        result_model(r) == unsigned_of(t@),
{
    match t {
        Token::Int(i) => {
            if i >= 0 {
                Ok(i as u128)
            } else {
                Err(Error::NegativeUnsigned { value: i }.into_custom())
            }
        },
        Token::UInt(u) => Ok(u),
        other => Err(Error::ExpectedInteger { got: other }.into_custom()),
    }
}

/// A float field's source: float text, or an integer.
pub fn float(t: Token) -> (r: Result<FloatSource, Error>)
    ensures
        float_result_model(r) == float_of(t@),
{
    match t {
        Token::Float(f) => Ok(FloatSource::Text(f)),
        Token::Int(i) => Ok(FloatSource::Int(i)),
        Token::UInt(u) => Ok(FloatSource::UInt(u)),
        other => Err(Error::ExpectedFloat { got: other }.into_custom()),
    }
}

fn narrow_signed(i: i128, w: IntWidth) -> (r: Result<i128, Error>)
    ensures
        result_model(r) == (if width_min(w) <= i <= width_max(w) {
            Ok::<i128, ErrorModel>(i)
        } else {
            Err(custom(ErrorModel::SignedOutOfRange { value: i, width: w }))
        }),
{
    let (lo, hi): (i128, i128) = match w {
        IntWidth::I8 => (-128, 127),
        IntWidth::I16 => (-32768, 32767),
        IntWidth::I32 => (-2147483648, 2147483647),
        IntWidth::I64 => (-9223372036854775808, 9223372036854775807),
        IntWidth::U8 => (0, 255),
        IntWidth::U16 => (0, 65535),
        IntWidth::U32 => (0, 4294967295),
        IntWidth::U64 => (0, 18446744073709551615),
    };
    if i >= lo && i <= hi {
        Ok(i)
    } else {
        Err(Error::SignedOutOfRange { value: i, width: w }.into_custom())
    }
}

fn narrow_unsigned(u: u128, w: IntWidth) -> (r: Result<u128, Error>)
    ensures
        result_model(r) == (if u <= width_max(w) {
            Ok::<u128, ErrorModel>(u)
        } else {
            Err(custom(ErrorModel::UnsignedOutOfRange { value: u, width: w }))
        }),
{
    let hi: u128 = match w {
        IntWidth::I8 => 127,
        IntWidth::I16 => 32767,
        IntWidth::I32 => 2147483647,
        IntWidth::I64 => 9223372036854775807,
        IntWidth::U8 => 255,
        IntWidth::U16 => 65535,
        IntWidth::U32 => 4294967295,
        IntWidth::U64 => 18446744073709551615,
    };
    if u <= hi {
        Ok(u)
    } else {
        Err(Error::UnsignedOutOfRange { value: u, width: w }.into_custom())
    }
}

// ---------- the deserializer ----------

/// How a newtype struct opened in the text.
#[derive(Debug)]
pub enum NewtypeOpen {
    /// `(Name` was read: read the value, then [`Deserializer::close_paren`].
    Plain,
    /// `@name` was read: the bind name.
    Bind(String),
    /// The sigil was read: read the value, nothing to close.
    Prefixed,
    /// `[|` was read: read items while [`Deserializer::batch_has_next`],
    /// then [`Deserializer::close_atomic_batch`].
    AtomicBatch,
}

pub enum NewtypeOpenModel {
    Plain,
    Bind(Seq<char>),
    Prefixed,
    AtomicBatch,
}

pub open spec fn newtype_open_model(r: Result<NewtypeOpen, Error>) -> Result<NewtypeOpenModel, ErrorModel> {
    match r {
        Ok(NewtypeOpen::Plain) => Ok(NewtypeOpenModel::Plain),
        Ok(NewtypeOpen::Bind(s)) => Ok(NewtypeOpenModel::Bind(s@)),
        Ok(NewtypeOpen::Prefixed) => Ok(NewtypeOpenModel::Prefixed),
        Ok(NewtypeOpen::AtomicBatch) => Ok(NewtypeOpenModel::AtomicBatch),
        Err(e) => Err(e@),
    }
}

/// How an enum value opened in the text.
#[derive(Debug, Clone, Copy, PartialEq, Eq, Structural)]
pub enum VariantOpen {
    /// A bare identifier follows (not yet consumed): a unit variant.
    Unit,
    /// `(` was consumed: a variant with a payload.
    Payload,
}

/// Message for a sentinel newtype struct read in the nota dialect.
pub open spec fn sentinel_in_nota_de_message(name: Seq<char>) -> Seq<char> {
    "sentinel newtype-struct `"@ + name
        + "` is not valid in nota dialect; deserialize via nexus (`from_str_nexus`) instead"@
}

pub open spec fn sigil_token(s: Sentinel) -> TokenModel {
    match s {
        Sentinel::Mutate => TokenModel::Tilde,
        Sentinel::Negate => TokenModel::Bang,
        Sentinel::Validate => TokenModel::Question,
        Sentinel::Subscribe => TokenModel::Star,
        Sentinel::Bind => TokenModel::At,
        Sentinel::AtomicBatch => TokenModel::LBracketPipe,
    }
}

/// Stream state after two tokens have been taken.
pub open spec fn advance2(d: Dialect, s: Seq<u8>, st: StreamState) -> StreamState {
    advance(d, s, advance(d, s, st))
}

pub struct Deserializer<'de> {
    stream: TokenStream<'de>,
}

impl<'de> Deserializer<'de> {
    /// The UTF-8 bytes being read.
    pub closed spec fn text(&self) -> Seq<u8> {
        self.stream.text()
    }

    pub closed spec fn spec_dialect(&self) -> Dialect {
        self.stream.dialect_of()
    }

    pub closed spec fn state(&self) -> StreamState {
        self.stream.state()
    }

    /// The next token (or lexing error) the reader would take.
    pub open spec fn next_model(&self) -> Result<Option<TokenModel>, LexError> {
        first_of(self.spec_dialect(), self.text(), self.state()).0
    }

    /// The state once the next token is taken.
    pub open spec fn advanced(&self) -> StreamState {
        advance(self.spec_dialect(), self.text(), self.state())
    }

    /// The token after the next one (or its lexing error).
    pub open spec fn second_model(&self) -> Result<Option<TokenModel>, LexError> {
        first_of(self.spec_dialect(), self.text(), self.advanced()).0
    }

    pub open spec fn advanced2(&self) -> StreamState {
        advance2(self.spec_dialect(), self.text(), self.state())
    }

    pub fn new(input: &'de str) -> (d: Self)
        ensures
            d.text() == vstd::string::StringSliceAdditionalSpecFns::spec_bytes(input),
            d.spec_dialect() == Dialect::Nota,
            d.state() == (StreamState { pos: 0, alias: AliasState::Other, peeked: None }),
    {
        Self::with_dialect(input, Dialect::Nota)
    }

    pub fn nexus(input: &'de str) -> (d: Self)
        ensures
            d.text() == vstd::string::StringSliceAdditionalSpecFns::spec_bytes(input),
            d.spec_dialect() == Dialect::Nexus,
            d.state() == (StreamState { pos: 0, alias: AliasState::Other, peeked: None }),
    {
        Self::with_dialect(input, Dialect::Nexus)
    }

    pub fn with_dialect(input: &'de str, dialect: Dialect) -> (d: Self)
        ensures
            d.text() == vstd::string::StringSliceAdditionalSpecFns::spec_bytes(input),
            d.spec_dialect() == dialect,
            d.state() == (StreamState { pos: 0, alias: AliasState::Other, peeked: None }),
    {
        Self { stream: TokenStream::new(input, dialect) }
    }

    pub fn dialect(&self) -> (d: Dialect)
        ensures
            d == self.spec_dialect(),
    {
        self.stream.lexer.dialect()
    }

    /// Looks at the next token without taking it.
    pub fn peek(&mut self) -> (r: Result<Option<Token>, Error>)
        ensures
            final(self).text() == old(self).text(),
            final(self).spec_dialect() == old(self).spec_dialect(),
            final(self).state() == look(old(self).spec_dialect(), old(self).text(), old(self).state()),
            public_outcome(r, old(self).next_model(), old(self).text()),
    {
        self.stream.peek()
    }

    /// Takes the next token (`None` at the end of the input).
    pub fn next(&mut self) -> (r: Result<Option<Token>, Error>)
        ensures
            final(self).text() == old(self).text(),
            final(self).spec_dialect() == old(self).spec_dialect(),
            final(self).state() == old(self).advanced(),
            public_outcome(r, old(self).next_model(), old(self).text()),
    {
        self.stream.next()
    }

    /// Takes the next token, which must be `expected`.
    pub fn expect_matching(&mut self, expected: &Token) -> (r: Result<(), Error>)
        ensures
            final(self).text() == old(self).text(),
            final(self).spec_dialect() == old(self).spec_dialect(),
            final(self).state() == old(self).advanced(),
            result_model(r) == with_next(
                old(self).text(),
                old(self).next_model(),
                |t: TokenModel| matching(expected@, t),
            ),
    {
        self.stream.expect_matching(expected)
    }

    /// Takes a PascalCase head identifier.
    pub fn expect_pascal_head(&mut self, kind: HeadKind) -> (r: Result<String, Error>)
        ensures
            final(self).text() == old(self).text(),
            final(self).spec_dialect() == old(self).spec_dialect(),
            final(self).state() == old(self).advanced(),
            string_result_model(r) == with_next(
                old(self).text(),
                old(self).next_model(),
                |t: TokenModel| pascal_head(kind, t),
            ),
    {
        self.stream.expect_pascal_head(kind)
    }

    /// The input must hold no further token.
    pub fn expect_end(&mut self) -> (r: Result<(), Error>)
        ensures
            final(self).text() == old(self).text(),
            final(self).spec_dialect() == old(self).spec_dialect(),
            final(self).state() == old(self).advanced(),
            result_model(r) == match old(self).next_model() {
                Err(x) => Err(ErrorModel::Custom(lex_error_text(old(self).text(), x))),
                Ok(None) => Ok(()),
                Ok(Some(t)) => Err(custom(ErrorModel::ExtraInput { got: t })),
            },
    {
        match self.stream.next() {
            Ok(None) => Ok(()),
            Ok(Some(t)) => Err(Error::ExtraInput { got: t }.into_custom()),
            Err(e) => Err(e),
        }
    }

    pub fn deserialize_bool(&mut self) -> (r: Result<bool, Error>)
        ensures
            final(self).text() == old(self).text(),
            final(self).spec_dialect() == old(self).spec_dialect(),
            final(self).state() == old(self).advanced(),
            result_model(r) == with_next(old(self).text(), old(self).next_model(), |t: TokenModel| bool_of(t)),
    {
        match self.stream.expect_next() {
            Ok(Token::Bool(b)) => Ok(b),
            Ok(other) => Err(Error::ExpectedBool { got: other }.into_custom()),
            Err(e) => Err(e),
        }
    }

    pub fn deserialize_i128(&mut self) -> (r: Result<i128, Error>)
        ensures
            final(self).text() == old(self).text(),
            final(self).spec_dialect() == old(self).spec_dialect(),
            final(self).state() == old(self).advanced(),
            result_model(r) == with_next(old(self).text(), old(self).next_model(), |t: TokenModel| signed_of(t)),
    {
        match self.stream.expect_next() {
            Ok(t) => int_to_i128(t),
            Err(e) => Err(e),
        }
    }

    pub fn deserialize_u128(&mut self) -> (r: Result<u128, Error>)
        ensures
            final(self).text() == old(self).text(),
            final(self).spec_dialect() == old(self).spec_dialect(),
            final(self).state() == old(self).advanced(),
            result_model(r) == with_next(old(self).text(), old(self).next_model(), |t: TokenModel| unsigned_of(t)),
    {
        match self.stream.expect_next() {
            Ok(t) => int_to_u128(t),
            Err(e) => Err(e),
        }
    }

    /// A signed integer that must fit `width` (`i8` … `i64`).
    pub fn deserialize_signed(&mut self, width: IntWidth) -> (r: Result<i128, Error>)
        ensures
            final(self).text() == old(self).text(),
            final(self).spec_dialect() == old(self).spec_dialect(),
            final(self).state() == old(self).advanced(),
            result_model(r) == with_next(
                old(self).text(),
                old(self).next_model(),
                |t: TokenModel| signed_in(width, t),
            ),
    {
        match self.deserialize_i128() {
            Ok(i) => narrow_signed(i, width),
            Err(e) => Err(e),
        }
    }

    /// An unsigned integer that must fit `width` (`u8` … `u64`).
    pub fn deserialize_unsigned(&mut self, width: IntWidth) -> (r: Result<u128, Error>)
        ensures
            final(self).text() == old(self).text(),
            final(self).spec_dialect() == old(self).spec_dialect(),
            final(self).state() == old(self).advanced(),
            result_model(r) == with_next(
                old(self).text(),
                old(self).next_model(),
                |t: TokenModel| unsigned_in(width, t),
            ),
    {
        match self.deserialize_u128() {
            Ok(u) => narrow_unsigned(u, width),
            Err(e) => Err(e),
        }
    }

    /// What a float is read from: float text or an integer.
    pub fn deserialize_float(&mut self) -> (r: Result<FloatSource, Error>)
        ensures
            final(self).text() == old(self).text(),
            final(self).spec_dialect() == old(self).spec_dialect(),
            final(self).state() == old(self).advanced(),
            float_result_model(r) == with_next(old(self).text(), old(self).next_model(), |t: TokenModel| float_of(t)),
    {
        match self.stream.expect_next() {
            Ok(t) => float(t),
            Err(e) => Err(e),
        }
    }

    /// A char: a one-character string or identifier.
    pub fn deserialize_char(&mut self) -> (r: Result<char, Error>)
        ensures
            final(self).text() == old(self).text(),
            final(self).spec_dialect() == old(self).spec_dialect(),
            final(self).state() == old(self).advanced(),
            result_model(r) == with_next(old(self).text(), old(self).next_model(), |t: TokenModel| char_of(t)),
    {
        let (from_ident, s) = match self.stream.expect_next() {
            Ok(Token::Str(s)) => (false, s),
            Ok(Token::Ident(s)) => (true, s),
            Ok(other) => return Err(Error::ExpectedCharText { got: other }.into_custom()),
            Err(e) => return Err(e),
        };
        let chars = chars_of(s.as_str());
        if chars.len() == 0 {
            return Err(Error::EmptyCharText { from_ident }.into_custom());
        }
        if chars.len() > 1 {
            return Err(Error::ExpectedSingleChar { text: s }.into_custom());
        }
        Ok(chars[0])
    }

    /// A string: a string token (quoted, or bracketed in nota) or a bare
    /// identifier.
    pub fn deserialize_str(&mut self) -> (r: Result<String, Error>)
        ensures
            final(self).text() == old(self).text(),
            final(self).spec_dialect() == old(self).spec_dialect(),
            final(self).state() == old(self).advanced(),
            string_result_model(r) == with_next(old(self).text(), old(self).next_model(), |t: TokenModel| string_of(t)),
    {
        match self.stream.expect_next() {
            Ok(Token::Str(s)) => Ok(s),
            Ok(Token::Ident(s)) => Ok(s),
            Ok(other) => Err(Error::ExpectedString { got: other }.into_custom()),
            Err(e) => Err(e),
        }
    }

    pub fn deserialize_bytes(&mut self) -> (r: Result<Vec<u8>, Error>)
        ensures
            final(self).text() == old(self).text(),
            final(self).spec_dialect() == old(self).spec_dialect(),
            final(self).state() == old(self).advanced(),
            (match r {
                Ok(b) => Ok::<Seq<u8>, ErrorModel>(b@),
                Err(e) => Err(e@),
            }) == with_next(old(self).text(), old(self).next_model(), |t: TokenModel| bytes_of(t)),
    {
        match self.stream.expect_next() {
            Ok(Token::Bytes(b)) => Ok(b),
            Ok(other) => Err(Error::ExpectedBytes { got: other }.into_custom()),
            Err(e) => Err(e),
        }
    }

    /// An option is absent when the next token is the identifier `None`,
    /// which is then taken; anything else is left for the present value.
    pub fn deserialize_option(&mut self) -> (r: Result<bool, Error>)
        ensures
            final(self).text() == old(self).text(),
            final(self).spec_dialect() == old(self).spec_dialect(),
            match old(self).next_model() {
                Err(x) => (r matches Err(e) && e@ == ErrorModel::Custom(lex_error_text(old(self).text(), x))) && final(self).state() == look(
                    old(self).spec_dialect(),
                    old(self).text(),
                    old(self).state(),
                ),
                Ok(t) => if is_none_ident(t) {
                    r == Ok::<bool, Error>(false) && final(self).state() == old(self).advanced()
                } else {
                    r == Ok::<bool, Error>(true) && final(self).state() == look(
                        old(self).spec_dialect(),
                        old(self).text(),
                        old(self).state(),
                    )
                },
            },
    {
        let p = self.stream.peek();
        match p {
            Err(e) => Err(e),
            Ok(Some(Token::Ident(s))) => {
                let chars = chars_of(s.as_str());
                if chars.len() == 4 && chars[0] == 'N' && chars[1] == 'o' && chars[2] == 'n'
                    && chars[3] == 'e' {
                    assert(s@ =~= seq!['N', 'o', 'n', 'e']);
                    let _ = self.stream.next();
                    Ok(false)
                } else {
                    proof {
                        if s@ == seq!['N', 'o', 'n', 'e'] {
                            assert(chars@[1] == 'o' && chars@[2] == 'n' && chars@[3] == 'e');
                        }
                    }
                    Ok(true)
                }
            },
            Ok(_) => Ok(true),
        }
    }

    /// The unit type has no nota form.
    pub fn deserialize_unit(&self) -> (r: Result<(), Error>)
        ensures
            r == Err::<(), Error>(Error::UnitForbidden),
    {
        Err(Error::UnitForbidden)
    }

    /// A unit struct: its PascalCase name, which must be `name`.
    pub fn deserialize_unit_struct(&mut self, name: &str) -> (r: Result<(), Error>)
        ensures
            final(self).text() == old(self).text(),
            final(self).spec_dialect() == old(self).spec_dialect(),
            final(self).state() == old(self).advanced(),
            result_model(r) == match with_next(
                old(self).text(),
                old(self).next_model(),
                |t: TokenModel| pascal_head(HeadKind::UnitStruct, t),
            ) {
                Ok(head) => if head == name@ {
                    Ok(())
                } else {
                    Err(custom(ErrorModel::NameMismatch { kind: HeadKind::UnitStruct, expected: name@, got: head }))
                },
                Err(e) => Err(e),
            },
    {
        let head = match self.stream.expect_pascal_head(HeadKind::UnitStruct) {
            Ok(h) => h,
            Err(e) => return Err(e),
        };
        if !str_eq(head.as_str(), name) {
            return Err(
                Error::NameMismatch {
                    kind: HeadKind::UnitStruct,
                    expected: String::from_str(name),
                    got: head,
                }.into_custom(),
            );
        }
        Ok(())
    }

    /// Opens a newtype struct. A plain name reads `(Name` (PascalCase,
    /// equal to `name`). In nexus, sentinel names read their prefix
    /// instead (`@ident`, `~`, `!`, `?`, `*`, `[|`); in nota they are
    /// refused before any token is read.
    pub fn deserialize_newtype_struct(&mut self, name: &str) -> (r: Result<NewtypeOpen, Error>)
        ensures
            final(self).text() == old(self).text(),
            final(self).spec_dialect() == old(self).spec_dialect(),
            match sentinel_of(name@) {
                Some(s) => if old(self).spec_dialect() == Dialect::Nota {
                    newtype_open_model(r) == Err::<NewtypeOpenModel, ErrorModel>(
                        ErrorModel::Custom(sentinel_in_nota_de_message(name@)),
                    ) && final(self).state() == old(self).state()
                } else {
                    match with_next(old(self).text(), old(self).next_model(), |t: TokenModel| matching(sigil_token(s), t)) {
                        Err(e) => newtype_open_model(r) == Err::<NewtypeOpenModel, ErrorModel>(e)
                            && final(self).state() == old(self).advanced(),
                        Ok(()) => if s == Sentinel::Bind {
                            newtype_open_model(r) == match with_next(
                                old(self).text(),
                                old(self).second_model(),
                                |t: TokenModel| ident_after_at(t),
                            ) {
                                Ok(id) => Ok(NewtypeOpenModel::Bind(id)),
                                Err(e) => Err(e),
                            } && final(self).state() == old(self).advanced2()
                        } else if s == Sentinel::AtomicBatch {
                            newtype_open_model(r) == Ok::<NewtypeOpenModel, ErrorModel>(
                                NewtypeOpenModel::AtomicBatch,
                            ) && final(self).state() == old(self).advanced()
                        } else {
                            newtype_open_model(r) == Ok::<NewtypeOpenModel, ErrorModel>(
                                NewtypeOpenModel::Prefixed,
                            ) && final(self).state() == old(self).advanced()
                        },
                    }
                },
                None => match with_next(
                    old(self).text(),
                    old(self).next_model(),
                    |t: TokenModel| matching(TokenModel::LParen, t),
                ) {
                    Err(e) => newtype_open_model(r) == Err::<NewtypeOpenModel, ErrorModel>(e)
                        && final(self).state() == old(self).advanced(),
                    Ok(()) => final(self).state() == old(self).advanced2() && newtype_open_model(r)
                        == match with_next(
                        old(self).text(),
                        old(self).second_model(),
                        |t: TokenModel| pascal_head(HeadKind::Newtype, t),
                    ) {
                        Ok(head) => if head == name@ {
                            Ok(NewtypeOpenModel::Plain)
                        } else {
                            Err(
                                custom(ErrorModel::NameMismatch {
                                    kind: HeadKind::Newtype,
                                    expected: name@,
                                    got: head,
                                }),
                            )
                        },
                        Err(e) => Err(e),
                    },
                },
            },
    {
        match sentinel(name) {
            Some(s) => {
                if self.dialect() != Dialect::Nexus {
                    let mut msg = String::from_str("sentinel newtype-struct `");
                    msg.append(name);
                    msg.append(
                        "` is not valid in nota dialect; deserialize via nexus (`from_str_nexus`) instead",
                    );
                    return Err(Error::Custom(msg));
                }
                let sigil = match s {
                    Sentinel::Bind => Token::At,
                    Sentinel::Mutate => Token::Tilde,
                    Sentinel::Negate => Token::Bang,
                    Sentinel::Validate => Token::Question,
                    Sentinel::Subscribe => Token::Star,
                    Sentinel::AtomicBatch => Token::LBracketPipe,
                };
                match self.stream.expect_matching(&sigil) {
                    Ok(()) => {},
                    Err(e) => return Err(e),
                }
                match s {
                    Sentinel::Bind => match self.stream.expect_next() {
                        Ok(Token::Ident(id)) => Ok(NewtypeOpen::Bind(id)),
                        Ok(other) => Err(Error::ExpectedIdentAfterAt { got: other }.into_custom()),
                        Err(e) => Err(e),
                    },
                    Sentinel::AtomicBatch => Ok(NewtypeOpen::AtomicBatch),
                    _ => Ok(NewtypeOpen::Prefixed),
                }
            },
            None => {
                match self.stream.expect_matching(&Token::LParen) {
                    Ok(()) => {},
                    Err(e) => return Err(e),
                }
                let head = match self.stream.expect_pascal_head(HeadKind::Newtype) {
                    Ok(h) => h,
                    Err(e) => return Err(e),
                };
                if !str_eq(head.as_str(), name) {
                    return Err(
                        Error::NameMismatch {
                            kind: HeadKind::Newtype,
                            expected: String::from_str(name),
                            got: head,
                        }.into_custom(),
                    );
                }
                Ok(NewtypeOpen::Plain)
            },
        }
    }

    /// Takes `)`.
    pub fn close_paren(&mut self) -> (r: Result<(), Error>)
        ensures
            final(self).text() == old(self).text(),
            final(self).spec_dialect() == old(self).spec_dialect(),
            final(self).state() == old(self).advanced(),
            result_model(r) == with_next(
                old(self).text(),
                old(self).next_model(),
                |t: TokenModel| matching(TokenModel::RParen, t),
            ),
    {
        self.stream.expect_matching(&Token::RParen)
    }

    /// The token that closes a sequence or map in this dialect.
    fn seq_closer(&self) -> (t: Token)
        ensures
            t@ == seq_close_token(self.spec_dialect()),
    {
        if self.dialect() == Dialect::Nota {
            Token::RAngle
        } else {
            Token::RBracket
        }
    }

    /// Opens a sequence (or tuple or map): `<` (`[` in nexus).
    pub fn open_seq(&mut self) -> (r: Result<(), Error>)
        ensures
            final(self).text() == old(self).text(),
            final(self).spec_dialect() == old(self).spec_dialect(),
            final(self).state() == old(self).advanced(),
            result_model(r) == with_next(
                old(self).text(),
                old(self).next_model(),
                |t: TokenModel| matching(seq_open_token(old(self).spec_dialect()), t),
            ),
    {
        let opener = if self.dialect() == Dialect::Nota {
            Token::LAngle
        } else {
            Token::LBracket
        };
        self.stream.expect_matching(&opener)
    }

    /// Closes a sequence (or map): `>` (`]` in nexus).
    pub fn close_seq(&mut self) -> (r: Result<(), Error>)
        ensures
            final(self).text() == old(self).text(),
            final(self).spec_dialect() == old(self).spec_dialect(),
            final(self).state() == old(self).advanced(),
            result_model(r) == with_next(
                old(self).text(),
                old(self).next_model(),
                |t: TokenModel| matching(seq_close_token(old(self).spec_dialect()), t),
            ),
    {
        let closer = self.seq_closer();
        self.stream.expect_matching(&closer)
    }

    /// Closes an atomic batch: `|]`.
    pub fn close_atomic_batch(&mut self) -> (r: Result<(), Error>)
        ensures
            final(self).text() == old(self).text(),
            final(self).spec_dialect() == old(self).spec_dialect(),
            final(self).state() == old(self).advanced(),
            result_model(r) == with_next(
                old(self).text(),
                old(self).next_model(),
                |t: TokenModel| matching(TokenModel::RBracketPipe, t),
            ),
    {
        self.stream.expect_matching(&Token::RBracketPipe)
    }

    /// Whether another element follows before `closer` (or the end of
    /// the input); the token is only looked at.
    fn has_next_before(&mut self, closer: &Token) -> (r: Result<bool, Error>)
        ensures
            final(self).text() == old(self).text(),
            final(self).spec_dialect() == old(self).spec_dialect(),
            final(self).state() == look(old(self).spec_dialect(), old(self).text(), old(self).state()),
            result_model(r) == match old(self).next_model() {
                Err(x) => Err(ErrorModel::Custom(lex_error_text(old(self).text(), x))),
                Ok(None) => Ok(false),
                Ok(Some(t)) => Ok::<bool, ErrorModel>(t != closer@),
            },
    {
        match self.stream.peek() {
            Err(e) => Err(e),
            Ok(None) => Ok(false),
            Ok(Some(t)) => Ok(!same_token(&t, closer)),
        }
    }

    /// Another sequence element follows (the next token is not the
    /// closer, `>` or `]` in nexus).
    pub fn seq_has_next(&mut self) -> (r: Result<bool, Error>)
        ensures
            final(self).text() == old(self).text(),
            final(self).spec_dialect() == old(self).spec_dialect(),
            final(self).state() == look(old(self).spec_dialect(), old(self).text(), old(self).state()),
            result_model(r) == match old(self).next_model() {
                Err(x) => Err(ErrorModel::Custom(lex_error_text(old(self).text(), x))),
                Ok(None) => Ok(false),
                Ok(Some(t)) => Ok::<bool, ErrorModel>(t != seq_close_token(old(self).spec_dialect())),
            },
    {
        let closer = self.seq_closer();
        self.has_next_before(&closer)
    }

    /// Another positional field follows (the next token is not `)`).
    pub fn args_has_next(&mut self) -> (r: Result<bool, Error>)
        ensures
            final(self).text() == old(self).text(),
            final(self).spec_dialect() == old(self).spec_dialect(),
            final(self).state() == look(old(self).spec_dialect(), old(self).text(), old(self).state()),
            result_model(r) == match old(self).next_model() {
                Err(x) => Err(ErrorModel::Custom(lex_error_text(old(self).text(), x))),
                Ok(None) => Ok(false),
                Ok(Some(t)) => Ok::<bool, ErrorModel>(t != TokenModel::RParen),
            },
    {
        self.has_next_before(&Token::RParen)
    }

    /// Another atomic-batch item follows (the next token is not `|]`).
    pub fn batch_has_next(&mut self) -> (r: Result<bool, Error>)
        ensures
            final(self).text() == old(self).text(),
            final(self).spec_dialect() == old(self).spec_dialect(),
            final(self).state() == look(old(self).spec_dialect(), old(self).text(), old(self).state()),
            result_model(r) == match old(self).next_model() {
                Err(x) => Err(ErrorModel::Custom(lex_error_text(old(self).text(), x))),
                Ok(None) => Ok(false),
                Ok(Some(t)) => Ok::<bool, ErrorModel>(t != TokenModel::RBracketPipe),
            },
    {
        self.has_next_before(&Token::RBracketPipe)
    }

    /// Opens the next map entry: `(` is taken and `true` returned; at the
    /// closer, `>` (`]` in nexus), or the end nothing is taken and `false`
    /// returned.
    pub fn map_next_key(&mut self) -> (r: Result<bool, Error>)
        ensures
            final(self).text() == old(self).text(),
            final(self).spec_dialect() == old(self).spec_dialect(),
            match old(self).next_model() {
                Err(x) => (r matches Err(e) && e@ == ErrorModel::Custom(lex_error_text(old(self).text(), x))) && final(self).state() == look(
                    old(self).spec_dialect(),
                    old(self).text(),
                    old(self).state(),
                ),
                Ok(None) => r == Ok::<bool, Error>(false) && final(self).state() == look(
                    old(self).spec_dialect(),
                    old(self).text(),
                    old(self).state(),
                ),
                Ok(Some(t)) => if t == seq_close_token(old(self).spec_dialect()) {
                    r == Ok::<bool, Error>(false) && final(self).state() == look(
                        old(self).spec_dialect(),
                        old(self).text(),
                        old(self).state(),
                    )
                } else if t == TokenModel::LParen {
                    r == Ok::<bool, Error>(true) && final(self).state() == old(self).advanced()
                } else {
                    result_model(r) == Err::<bool, ErrorModel>(
                        custom(ErrorModel::ExpectedMapEntry { got: Some(t) }),
                    ) && final(self).state() == look(
                        old(self).spec_dialect(),
                        old(self).text(),
                        old(self).state(),
                    )
                },
            },
    {
        let closer = self.seq_closer();
        match self.stream.peek() {
            Err(e) => Err(e),
            Ok(None) => Ok(false),
            Ok(Some(Token::LParen)) => {
                let _ = self.stream.next();
                Ok(true)
            },
            Ok(Some(other)) => if same_token(&other, &closer) {
                Ok(false)
            } else {
                Err(Error::ExpectedMapEntry { got: Some(other) }.into_custom())
            },
        }
    }

    /// Opens a record: `(` then the PascalCase head, which must be `name`.
    pub fn deserialize_struct(&mut self, name: &str) -> (r: Result<(), Error>)
        ensures
            final(self).text() == old(self).text(),
            final(self).spec_dialect() == old(self).spec_dialect(),
            match with_next(
                old(self).text(),
                old(self).next_model(),
                |t: TokenModel| matching(TokenModel::LParen, t),
            ) {
                Err(e) => result_model(r) == Err::<(), ErrorModel>(e) && final(self).state()
                    == old(self).advanced(),
                Ok(()) => final(self).state() == old(self).advanced2() && result_model(r)
                    == match with_next(
                    old(self).text(),
                    old(self).second_model(),
                    |t: TokenModel| pascal_head(HeadKind::Struct, t),
                ) {
                    Ok(head) => if head == name@ {
                        Ok(())
                    } else {
                        Err(
                            custom(ErrorModel::NameMismatch { kind: HeadKind::Struct, expected: name@, got: head }),
                        )
                    },
                    Err(e) => Err(e),
                },
            },
    {
        match self.stream.expect_matching(&Token::LParen) {
            Ok(()) => {},
            Err(e) => return Err(e),
        }
        let head = match self.stream.expect_pascal_head(HeadKind::Struct) {
            Ok(h) => h,
            Err(e) => return Err(e),
        };
        if !str_eq(head.as_str(), name) {
            return Err(
                Error::NameMismatch { kind: HeadKind::Struct, expected: String::from_str(name), got: head }.into_custom(),
            );
        }
        Ok(())
    }

    /// Multi-field tuple structs have no nota form.
    pub fn deserialize_tuple_struct(&self, name: &str, len: usize) -> (r: Result<(), Error>)
        ensures
            result_model(r) == Err::<(), ErrorModel>(
                ErrorModel::MultiFieldTupleStructForbidden { name: name@, len },
            ),
    {
        Err(Error::MultiFieldTupleStructForbidden { name: String::from_str(name), len })
    }

    /// Opens an enum value: a bare identifier is a unit variant (left
    /// for the variant name); `(` is taken for a payload variant.
    pub fn deserialize_enum(&mut self) -> (r: Result<VariantOpen, Error>)
        ensures
            final(self).text() == old(self).text(),
            final(self).spec_dialect() == old(self).spec_dialect(),
            match old(self).next_model() {
                Err(x) => (r matches Err(e) && e@ == ErrorModel::Custom(lex_error_text(old(self).text(), x))) && final(self).state()
                    == look(old(self).spec_dialect(), old(self).text(), old(self).state()),
                Ok(Some(TokenModel::Ident(_))) => r == Ok::<VariantOpen, Error>(VariantOpen::Unit)
                    && final(self).state() == look(
                    old(self).spec_dialect(),
                    old(self).text(),
                    old(self).state(),
                ),
                Ok(Some(TokenModel::LParen)) => r == Ok::<VariantOpen, Error>(VariantOpen::Payload)
                    && final(self).state() == old(self).advanced(),
                Ok(t) => result_model(r) == Err::<VariantOpen, ErrorModel>(
                    custom(ErrorModel::ExpectedEnumVariant { got: t }),
                ) && final(self).state() == look(
                    old(self).spec_dialect(),
                    old(self).text(),
                    old(self).state(),
                ),
            },
    {
        match self.stream.peek() {
            Err(e) => Err(e),
            Ok(Some(Token::Ident(_))) => Ok(VariantOpen::Unit),
            Ok(Some(Token::LParen)) => {
                let _ = self.stream.next();
                Ok(VariantOpen::Payload)
            },
            Ok(other) => Err(Error::ExpectedEnumVariant { got: other }.into_custom()),
        }
    }

    /// The variant name: a PascalCase identifier.
    pub fn variant_name(&mut self) -> (r: Result<String, Error>)
        ensures
            final(self).text() == old(self).text(),
            final(self).spec_dialect() == old(self).spec_dialect(),
            final(self).state() == old(self).advanced(),
            string_result_model(r) == with_next(
                old(self).text(),
                old(self).next_model(),
                |t: TokenModel| pascal_head(HeadKind::Variant, t),
            ),
    {
        self.stream.expect_pascal_head(HeadKind::Variant)
    }

    /// An identifier (field or variant identifier position).
    pub fn deserialize_identifier(&mut self) -> (r: Result<String, Error>)
        ensures
            final(self).text() == old(self).text(),
            final(self).spec_dialect() == old(self).spec_dialect(),
            final(self).state() == old(self).advanced(),
            string_result_model(r) == with_next(
                old(self).text(),
                old(self).next_model(),
                |t: TokenModel| identifier_of(t),
            ),
    {
        match self.stream.expect_next() {
            Ok(Token::Ident(s)) => Ok(s),
            Ok(other) => Err(Error::ExpectedIdentifier { got: other }.into_custom()),
            Err(e) => Err(e),
        }
    }
}

} // verus!
