//! A codec between Gram notation, a text notation for graph-like patterns, and
//! a recursive pattern algebra.
//!
//! - `pattern`: the generic container `Pattern<V>` with structural equality,
//!   hashing, `map`, `combine` and deduplication, and the laws they obey.
//! - `subject`: values, symbols, label sets, property maps and subjects.
//! - `lexer`, `parser`: Gram text to patterns of subjects, reporting every
//!   syntax problem of a document.
//! - `serializer`: patterns of subjects back to Gram text.
//! - `error`: locations, parse errors and serialize errors.
pub mod error;
pub mod grammar;
pub mod lexer;
pub mod parser;
pub mod pattern;
pub mod serializer;
pub mod subject;
pub mod text;

pub use error::{Diagnostic, DiagnosticKind, Location, ParseError, ParseErrorKind, SerializeError};
pub use parser::{parse_gram_notation, parse_single_pattern, single_pattern, validate_gram};
pub use pattern::{dedup_patterns, Combinable, Pattern, PatternValue};
pub use serializer::{round_trip, serialize_pattern, serialize_patterns};
pub use subject::{Arrow, Form, LabelSet, PropertyMap, Subject, Symbol, Value};
