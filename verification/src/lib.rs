//! A container format for hierarchical scientific data: typed arrays and
//! records of them, written as a JSON header and a payload of fields, with
//! optional zlib compression and CRC-32 checks.
//!
//! A file is the magic `GREDBIN\0`, the byte length of the header as a
//! little-endian `u32`, the header (JSON text and a newline), and the
//! payload: the stored bytes of the fields, one after the other.
//!
//! The library works on bytes in memory. [`write_file`] gives the bytes of
//! a file, [`read_file`], [`read_var`] and [`read_header_only`] take them;
//! the modules [`layout`] and [`reader`] hold the steps of a read for a
//! caller that takes the bytes from a file piece by piece.
//!
//! - [`value`], [`tree`], [`order`]: the value model and records as trees.
//! - [`leaf`], [`decode`], [`le`]: the byte layout of each kind of leaf.
//! - [`compress`], [`checksum`]: the compression policy, zlib, and the CRCs.
//! - [`header`], [`schema`], [`json`]: the header and its JSON text.
//! - [`writer`], [`layout`], [`reader`]: files.
//! - [`roundtrip`], [`treelaws`], [`subtree`], [`laws`], [`filelaws`]: what
//!   is proved of the codec as a whole: reading gives back what was written.
//! - [`closing`]: why the writer's header comes to rest.
//! - [`readlaws`]: what the errors of a read say of the file.
//! - [`inspect`], [`text`], [`words`], [`error`]: helpers and errors.
use vstd::prelude::*;

pub mod checksum;
pub mod closing;
pub mod compress;
pub mod decode;
pub mod error;
pub mod filelaws;
pub mod header;
pub mod inspect;
pub mod json;
pub mod laws;
pub mod layout;
pub mod le;
pub mod leaf;
pub mod order;
pub mod reader;
pub mod readlaws;
pub mod roundtrip;
pub mod schema;
pub mod subtree;
pub mod text;
pub mod tree;
pub mod treelaws;
pub mod value;
pub mod words;
pub mod writer;

pub use crate::checksum::{
    compute_crc32, compute_header_crc32_hex_from_original_json, header_json_with_placeholder_crc,
    validate_header_crc,
};
pub use crate::compress::{decode_field_bytes, should_try_compress, CompressionMode};
pub use crate::decode::decode_leaf;
pub use crate::error::{ErrorKind, ErrorView, GbfError};
pub use crate::header::{FieldMeta, Header, MAGIC_BYTES, VERSION};
pub use crate::layout::{field_payload_start, ReadGroup, Selection};
pub use crate::le::{read_u32_le, write_u32_le};
pub use crate::leaf::encode_leaf;
pub use crate::reader::{read_file, read_header_only, read_var, ReadOptions};
pub use crate::tree::{assign_by_path, flatten_to_leaves};
pub use crate::value::{
    element_count, element_count_checked, CalendarDurationArray, CategoricalArray, CharArray,
    DateTimeArray, DurationArray, GbfValue, LogicalArray, NumericArray, NumericClass, StringArray,
    StructMap,
};
pub use crate::writer::{write_container, write_file, Container, WriteOptions};
