//! Shared kernel for the nota and nexus text formats: a tokenizer,
//! the canonical-text writer and the token-level reader.
//!
//! - [`lexer::Lexer`] and [`lexer::Token`]: tokenize nota / nexus text.
//! - [`ser::Serializer`]: canonical text output (positional records,
//!   bare identifier-shaped strings, sorted maps).
//! - [`de::Deserializer`]: the reading steps a schema-driven parser takes.
//! - [`error::Error`]: the shared error type.
//!
//! [`lexer::Dialect`] selects the grammar: `Nota` is the data format
//! (`< >` sequences and maps, `[…]` and `[| … |]` strings), `Nexus` the
//! messaging format (`[ ]` sequences, quoted strings, extra delimiters,
//! sigils and sentinel newtype-struct dispatch).

pub mod dedent;
pub mod error;
pub mod lexer;
pub mod number;
pub mod text;
pub mod ser;
pub mod de;
pub mod laws;
pub mod quoting;
pub mod message;
pub mod literal_laws;

pub use de::Deserializer;
pub use error::Error;
pub use lexer::{Dialect, Lexer, Token};
pub use ser::{
    is_pascal_case, Serializer, ATOMIC_BATCH_SENTINEL, BIND_SENTINEL, MUTATE_SENTINEL,
    NEGATE_SENTINEL, SUBSCRIBE_SENTINEL, VALIDATE_SENTINEL,
};
