//! A self-describing binary codec for a compact, length-prefixed,
//! tag-discriminated wire format.
//!
//! Callers describe composite data shapes in a small textual type-definition
//! language.  The library parses that language into a registry of named,
//! possibly generic type definitions, and converts between structured dynamic
//! values and the canonical byte encoding in both directions.

use vstd::prelude::*;

pub mod ast;
pub mod error;
pub mod value;
pub mod wire;
pub mod strutil;
pub mod token;
pub mod parser;
pub mod registry;
pub mod encode;
pub mod decode;
pub mod codec;
pub mod laws;
pub mod request;

pub use ast::{Enum, Id, PrimitiveType, Type, TypeDef};
pub use codec::{append_types, codec, decode, decode_all, encode, encode_all, parse_types_str, Codec, TypeIds};
pub use error::{Error, ErrorKind};
pub use parser::{parse_type, parse_types};
pub use registry::Registry;
pub use request::{default_method, HttpRequest};
pub use value::Value;

verus! {

} // verus!
