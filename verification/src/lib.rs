//! A symbol-table-driven lexical analyzer, verified with Verus.
//!
//! [`lex`] turns UTF-8 text into a nested tree of tokens: identifiers,
//! whitespace runs, caller-defined multi-character symbols, quoted
//! string literals with escapes, and bracketed groups that own their
//! nested token sequence.  Every token carries the exact display
//! column, line and byte offset where it starts.  The caller supplies
//! the alphabet of symbols; [`validate_symbol_table`] rejects tables
//! under which symbol matching would be ambiguous, and hands back the
//! two conflicting decodings as a checkable witness.
//!
//! The behaviour of the lexer is specified by a recursive mathematical
//! model of scanning, and the executable engine is verified to return
//! exactly what the model prescribes.  On top of the model, the `laws`
//! module proves the structural guarantees of every produced tree: the
//! tokens tile the source with no gaps and no overlaps, so
//! their concatenated source texts rebuild the input exactly, and their
//! start positions strictly increase.

pub mod unicode;
pub mod span;
pub mod token;
pub mod tokens;
pub mod symbol_table;
pub mod lex;
pub mod laws;

pub use span::{TextPos, Span};
pub use token::{TokenKind, Token, StrText};
pub use tokens::{TokensBuf, TokensRef};
pub use symbol_table::{InvalidSymbolTableError, validate_symbol_table};
pub use lex::{LexError, lex};
