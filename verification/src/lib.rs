//! In-place transcoder from JSON text to a compact type-length-value form,
//! with lazy traversal of the encoded bytes.
//!
//! Encoding rewrites a byte buffer without changing its length: every byte of
//! the text becomes part of a record or a `0x00` padding byte. Strings,
//! arrays and objects carry the byte length of their payload in their length
//! field.

pub mod array;
pub mod ascii;
pub mod bytesize;
pub mod error;
pub mod grammar;
pub mod iterators;
pub mod json;
pub mod laws;
pub mod layout;
pub mod length;
pub mod mask;
pub mod nesting;
pub mod number;
pub mod object;
pub mod parser;
pub mod round_trip;
pub mod runs;
pub mod skip_zeroes;
pub mod string;
pub mod tlv;
pub mod tree;
pub mod true_false_null;
pub mod value;
pub mod ws;

pub use array::Array;
pub use error::ParseError;
pub use iterators::{ArrayIterator, ObjectIterator};
pub use number::int_or_float::Decimal;
pub use object::Object;
pub use parser::Parser;
pub use value::Value;
