//! JSON decoding and encoding with exact decimal numbers.
//!
//! A reader walks the bytes of a document and decodes one JSON value at a
//! time into the type that the caller asks for. Numbers are kept as decimal
//! digits with a power of ten, so that nothing is rounded on the way in or
//! out.

pub mod ascii;
pub mod canonical;
pub mod compound;
pub mod containers;
pub mod convert;
pub mod decode;
pub mod encode;
pub mod error;
pub mod escape;
pub mod format;
pub mod integer;
pub mod number;
pub mod numeric;
pub mod reader;
pub mod roundtrip;
pub mod scalar;
pub mod skip;
pub mod text;
pub mod to_json;
pub mod token;
mod trusted;
pub mod value;

pub use crate::containers::ValidateJson;
pub use crate::decode::TryFromJson;
pub use crate::error::{Error, ErrorKind, PathItem};
pub use crate::escape::{escape, escape_bytes};
pub use crate::format::number_to_string;
pub use crate::number::READER_BUFFER_SIZE;
pub use crate::reader::Reader;
pub use crate::to_json::{DebugToJson, WriteToJson};
pub use crate::token::Token;
pub use crate::value::Value;
