//! Decoder for FIT (Flexible and Interoperable Data Transfer) files.
//!
//! A FIT file is a header, a stream of records and a trailing checksum. The
//! stream describes itself: definition messages announce the layout of the
//! data messages that follow them on the same local channel.
//!
//! [`decode`] decodes a whole file. [`Session::decode_record`] decodes one
//! record at a time. What each of them returns is stated over the spec
//! functions of the same module, such as [`decoder::parse_file`] and
//! [`session::parse_record`]; what holds of all inputs is proved in [`laws`]
//! and, for what is written and read back, in [`encoding`].

pub mod crc;
pub mod cursor;
pub mod decoder;
pub mod definition;
pub mod encoding;
pub mod endian;
pub mod error;
pub mod header;
pub mod laws;
pub mod record;
pub mod registry;
pub mod session;
pub mod table;
pub mod text;
pub mod value;

pub use crate::cursor::Cursor;
pub use crate::decoder::{decode, decode_body, Decoded};
pub use crate::definition::{Definition, DeveloperFieldDefinition, FieldDefinition};
pub use crate::error::{ErrorKind, FitObject, Needed, ParseErrorKind};
pub use crate::header::FitHeader;
pub use crate::record::{DataField, DataRecord, DecodedRecord, RecordHeader};
pub use crate::session::Session;
pub use crate::value::{BaseType, Scalar, Value};
