//! The error type shared by the lexer, the writer and the reader.
//!
//! The writer's own refusals are the variants `UnitForbidden`,
//! `StringContainsMultilineCloser`, `NonFiniteFloat`, `MapValueWithoutKey`
//! and `MultiFieldTupleStructForbidden`. Every other failure reaches the
//! caller as `Custom` with its message: the remaining variants describe a
//! lexing or reading failure (the rule that was broken and what the
//! message needs: byte offsets, offending bytes, tokens, names), and
//! `Error::into_custom` turns one into that message.

use vstd::prelude::*;

use crate::lexer::{Dialect, Token, TokenModel};

verus! {

/// Why an integer literal could not be read.
#[derive(Debug, Clone, Copy, PartialEq, Eq, Structural)]
pub enum IntErrorKind {
    /// No digits at all.
    Empty,
    /// A sign with no digits, or a negative value below `i128::MIN`.
    InvalidDigit,
    /// A value above `u128::MAX`.
    PosOverflow,
}

/// Tokenizer failures. Offsets are byte offsets into the input.
#[derive(Debug, Clone, Copy, PartialEq, Eq, Structural)]
pub enum LexError {
    /// A reserved token (`<` or `>` in nexus, `!=`, `=` outside a bind
    /// alias), kept for future comparison operators.
    ReservedToken { byte: u8, offset: usize },
    /// A byte that starts no token of the dialect.
    UnexpectedCharacter { byte: u8, offset: usize, dialect: Dialect },
    /// `|` followed by something other than `)`, `}` or `]`.
    PipeFollowedBy { byte: u8 },
    /// `|` as the last byte of the input.
    PipeAtEnd,
    UnterminatedInlineString,
    NewlineInInlineString,
    UnterminatedEscape,
    UnknownEscape { byte: u8 },
    /// A multi-byte sequence cut off by the end of the input.
    TruncatedUtf8,
    /// The text of a string token is not valid UTF-8 (a dedent cut that
    /// falls inside a multi-byte whitespace character).
    InvalidUtf8 { offset: usize },
    UnterminatedMultilineString,
    /// Nota `[` with no `]` after it.
    UnterminatedBracketString,
    /// Nota `[|` with no `|]` after it.
    UnterminatedBracketMultiline,
    /// `#` with no hex digits after it.
    EmptyByteLiteral,
    OddHexDigitCount { count: usize },
    /// The number spanning `start..end` is not an `f64` literal.
    InvalidFloat { start: usize, end: usize },
    /// The decimal integer spanning `start..end` does not fit.
    InvalidInteger { start: usize, end: usize, reason: IntErrorKind },
    /// The prefixed integer spanning `start..end` does not fit.
    InvalidRadixInt { radix: u32, start: usize, end: usize, reason: IntErrorKind },
}

/// Which kind of head identifier the reader expected.
#[derive(Debug, Clone, Copy, PartialEq, Eq, Structural)]
pub enum HeadKind {
    Struct,
    UnitStruct,
    Newtype,
    Variant,
}

/// Target width of a narrowing integer read.
#[derive(Debug, Clone, Copy, PartialEq, Eq, Structural)]
pub enum IntWidth {
    I8,
    I16,
    I32,
    I64,
    U8,
    U16,
    U32,
    U64,
}

#[derive(Debug, Clone, PartialEq)]
pub enum Error {
    /// Free-form message (serde's `custom`, dialect violations).
    Custom(String),
    UnitForbidden,
    StringContainsMultilineCloser,
    NonFiniteFloat,
    MapValueWithoutKey,
    MultiFieldTupleStructForbidden { name: String, len: usize },
    Lex(LexError),
    UnexpectedEnd,
    ExpectedToken { expected: Token, got: Token },
    /// A head identifier whose first character is not ASCII uppercase.
    HeadNotPascalCase { kind: HeadKind, name: String },
    /// A head position held a token other than an identifier.
    ExpectedHead { kind: HeadKind, got: Token },
    /// A head identifier that differs from the schema's name.
    NameMismatch { kind: HeadKind, expected: String, got: String },
    ExtraInput { got: Token },
    IntegerTooLarge { value: u128 },
    NegativeUnsigned { value: i128 },
    ExpectedInteger { got: Token },
    SignedOutOfRange { value: i128, width: IntWidth },
    UnsignedOutOfRange { value: u128, width: IntWidth },
    ExpectedBool { got: Token },
    ExpectedFloat { got: Token },
    ExpectedCharText { got: Token },
    /// An empty string (`from_ident == false`) or identifier for a char.
    EmptyCharText { from_ident: bool },
    ExpectedSingleChar { text: String },
    ExpectedString { got: Token },
    ExpectedBytes { got: Token },
    ExpectedIdentAfterAt { got: Token },
    ExpectedEnumVariant { got: Option<Token> },
    ExpectedIdentifier { got: Token },
    ExpectedMapEntry { got: Option<Token> },
}

/// The mathematical value of an [`Error`]: strings become character
/// sequences and tokens their models.
pub enum ErrorModel {
    Custom(Seq<char>),
    UnitForbidden,
    StringContainsMultilineCloser,
    NonFiniteFloat,
    MapValueWithoutKey,
    MultiFieldTupleStructForbidden { name: Seq<char>, len: usize },
    Lex(LexError),
    UnexpectedEnd,
    ExpectedToken { expected: TokenModel, got: TokenModel },
    HeadNotPascalCase { kind: HeadKind, name: Seq<char> },
    ExpectedHead { kind: HeadKind, got: TokenModel },
    NameMismatch { kind: HeadKind, expected: Seq<char>, got: Seq<char> },
    ExtraInput { got: TokenModel },
    IntegerTooLarge { value: u128 },
    NegativeUnsigned { value: i128 },
    ExpectedInteger { got: TokenModel },
    SignedOutOfRange { value: i128, width: IntWidth },
    UnsignedOutOfRange { value: u128, width: IntWidth },
    ExpectedBool { got: TokenModel },
    ExpectedFloat { got: TokenModel },
    ExpectedCharText { got: TokenModel },
    EmptyCharText { from_ident: bool },
    ExpectedSingleChar { text: Seq<char> },
    ExpectedString { got: TokenModel },
    ExpectedBytes { got: TokenModel },
    ExpectedIdentAfterAt { got: TokenModel },
    ExpectedEnumVariant { got: Option<TokenModel> },
    ExpectedIdentifier { got: TokenModel },
    ExpectedMapEntry { got: Option<TokenModel> },
}

pub open spec fn option_token_model(t: Option<Token>) -> Option<TokenModel> {
    match t {
        Some(t) => Some(t@),
        None => None,
    }
}

impl View for Error {
    type V = ErrorModel;

    open spec fn view(&self) -> ErrorModel {
        match self {
            Error::Custom(m) => ErrorModel::Custom(m@),
            Error::UnitForbidden => ErrorModel::UnitForbidden,
            Error::StringContainsMultilineCloser => ErrorModel::StringContainsMultilineCloser,
            Error::NonFiniteFloat => ErrorModel::NonFiniteFloat,
            Error::MapValueWithoutKey => ErrorModel::MapValueWithoutKey,
            Error::MultiFieldTupleStructForbidden { name, len } =>
                ErrorModel::MultiFieldTupleStructForbidden { name: name@, len: *len },
            Error::Lex(e) => ErrorModel::Lex(*e),
            Error::UnexpectedEnd => ErrorModel::UnexpectedEnd,
            Error::ExpectedToken { expected, got } =>
                ErrorModel::ExpectedToken { expected: expected@, got: got@ },
            Error::HeadNotPascalCase { kind, name } =>
                ErrorModel::HeadNotPascalCase { kind: *kind, name: name@ },
            Error::ExpectedHead { kind, got } => ErrorModel::ExpectedHead { kind: *kind, got: got@ },
            Error::NameMismatch { kind, expected, got } =>
                ErrorModel::NameMismatch { kind: *kind, expected: expected@, got: got@ },
            Error::ExtraInput { got } => ErrorModel::ExtraInput { got: got@ },
            Error::IntegerTooLarge { value } => ErrorModel::IntegerTooLarge { value: *value },
            Error::NegativeUnsigned { value } => ErrorModel::NegativeUnsigned { value: *value },
            Error::ExpectedInteger { got } => ErrorModel::ExpectedInteger { got: got@ },
            Error::SignedOutOfRange { value, width } =>
                ErrorModel::SignedOutOfRange { value: *value, width: *width },
            Error::UnsignedOutOfRange { value, width } =>
                ErrorModel::UnsignedOutOfRange { value: *value, width: *width },
            Error::ExpectedBool { got } => ErrorModel::ExpectedBool { got: got@ },
            Error::ExpectedFloat { got } => ErrorModel::ExpectedFloat { got: got@ },
            Error::ExpectedCharText { got } => ErrorModel::ExpectedCharText { got: got@ },
            Error::EmptyCharText { from_ident } => ErrorModel::EmptyCharText {
                from_ident: *from_ident,
            },
            Error::ExpectedSingleChar { text } => ErrorModel::ExpectedSingleChar { text: text@ },
            Error::ExpectedString { got } => ErrorModel::ExpectedString { got: got@ },
            Error::ExpectedBytes { got } => ErrorModel::ExpectedBytes { got: got@ },
            Error::ExpectedIdentAfterAt { got } => ErrorModel::ExpectedIdentAfterAt { got: got@ },
            Error::ExpectedEnumVariant { got } => ErrorModel::ExpectedEnumVariant {
                got: option_token_model(*got),
            },
            Error::ExpectedIdentifier { got } => ErrorModel::ExpectedIdentifier { got: got@ },
            Error::ExpectedMapEntry { got } => ErrorModel::ExpectedMapEntry {
                got: option_token_model(*got),
            },
        }
    }
}

} // verus!
