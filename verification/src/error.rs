//! The error type of the container codec.
use crate::text::{concat2, concat3, decimal_of, decimal_text, hex8, hex8_text};
use vstd::prelude::*;
use vstd::string::StringExecFns;

verus! {

/// The kind of a [`GbfError`], without its details.
#[derive(Debug, Clone, Copy, PartialEq, Eq, Structural)]
pub enum ErrorKind {
    Io,
    Utf8,
    Json,
    Format,
    Unsupported,
    HeaderCrcMismatch,
    FileSizeMismatch,
    VarNotFound,
    FieldOutOfBounds,
    DecompressionFailed,
    FieldSizeMismatch,
    FieldCrcMismatch,
}

/// Everything that reading or writing a container can fail with.
#[derive(Debug)]
pub enum GbfError {
    /// The byte source ended early or could not be read.
    Io(String),
    /// The header is not UTF-8.
    Utf8(String),
    /// The header is not the JSON document that the format asks for.
    Json(String),
    /// The container or a value breaks a rule of the format.
    Format(String),
    /// The value or the container asks for something that is not supported.
    Unsupported(String),
    HeaderCrcMismatch { expected: String, got: String },
    FileSizeMismatch { expected: u64, got: u64 },
    VarNotFound(String),
    FieldOutOfBounds { name: String, offset: u64, csize: u64, payload_len: u64 },
    DecompressionFailed { name: String, message: String },
    FieldSizeMismatch { name: String, expected: u64, got: u64 },
    FieldCrcMismatch { name: String, expected: u32, got: u32 },
}

/// What an error says, without the wording of its message: its kind, and
/// the names and numbers that the kind carries.
pub enum ErrorView {
    Io,
    Utf8,
    Json,
    Format,
    Unsupported,
    HeaderCrcMismatch { expected: Seq<char>, got: Seq<char> },
    FileSizeMismatch { expected: u64, got: u64 },
    VarNotFound(Seq<char>),
    FieldOutOfBounds { name: Seq<char>, offset: u64, csize: u64, payload_len: u64 },
    DecompressionFailed { name: Seq<char> },
    FieldSizeMismatch { name: Seq<char>, expected: u64, got: u64 },
    FieldCrcMismatch { name: Seq<char>, expected: u32, got: u32 },
}

impl ErrorView {
    /// The kind of the error.
    pub open spec fn kind(self) -> ErrorKind {
        match self {
            ErrorView::Io => ErrorKind::Io,
            ErrorView::Utf8 => ErrorKind::Utf8,
            ErrorView::Json => ErrorKind::Json,
            ErrorView::Format => ErrorKind::Format,
            ErrorView::Unsupported => ErrorKind::Unsupported,
            ErrorView::HeaderCrcMismatch { .. } => ErrorKind::HeaderCrcMismatch,
            ErrorView::FileSizeMismatch { .. } => ErrorKind::FileSizeMismatch,
            ErrorView::VarNotFound(_) => ErrorKind::VarNotFound,
            ErrorView::FieldOutOfBounds { .. } => ErrorKind::FieldOutOfBounds,
            ErrorView::DecompressionFailed { .. } => ErrorKind::DecompressionFailed,
            ErrorView::FieldSizeMismatch { .. } => ErrorKind::FieldSizeMismatch,
            ErrorView::FieldCrcMismatch { .. } => ErrorKind::FieldCrcMismatch,
        }
    }
}

impl View for GbfError {
    type V = ErrorView;

    open spec fn view(&self) -> ErrorView {
        match self {
            GbfError::Io(_) => ErrorView::Io,
            GbfError::Utf8(_) => ErrorView::Utf8,
            GbfError::Json(_) => ErrorView::Json,
            GbfError::Format(_) => ErrorView::Format,
            GbfError::Unsupported(_) => ErrorView::Unsupported,
            GbfError::HeaderCrcMismatch { expected, got } => ErrorView::HeaderCrcMismatch {
                expected: expected@,
                got: got@,
            },
            GbfError::FileSizeMismatch { expected, got } => ErrorView::FileSizeMismatch {
                expected: *expected,
                got: *got,
            },
            GbfError::VarNotFound(p) => ErrorView::VarNotFound(p@),
            GbfError::FieldOutOfBounds { name, offset, csize, payload_len } => {
                ErrorView::FieldOutOfBounds {
                    name: name@,
                    offset: *offset,
                    csize: *csize,
                    payload_len: *payload_len,
                }
            },
            GbfError::DecompressionFailed { name, .. } => ErrorView::DecompressionFailed {
                name: name@,
            },
            GbfError::FieldSizeMismatch { name, expected, got } => ErrorView::FieldSizeMismatch {
                name: name@,
                expected: *expected,
                got: *got,
            },
            GbfError::FieldCrcMismatch { name, expected, got } => ErrorView::FieldCrcMismatch {
                name: name@,
                expected: *expected,
                got: *got,
            },
        }
    }
}

impl GbfError {
    /// The kind of this error.
    pub open spec fn kind_of(&self) -> ErrorKind {
        match self {
            GbfError::Io(_) => ErrorKind::Io,
            GbfError::Utf8(_) => ErrorKind::Utf8,
            GbfError::Json(_) => ErrorKind::Json,
            GbfError::Format(_) => ErrorKind::Format,
            GbfError::Unsupported(_) => ErrorKind::Unsupported,
            GbfError::HeaderCrcMismatch { .. } => ErrorKind::HeaderCrcMismatch,
            GbfError::FileSizeMismatch { .. } => ErrorKind::FileSizeMismatch,
            GbfError::VarNotFound(_) => ErrorKind::VarNotFound,
            GbfError::FieldOutOfBounds { .. } => ErrorKind::FieldOutOfBounds,
            GbfError::DecompressionFailed { .. } => ErrorKind::DecompressionFailed,
            GbfError::FieldSizeMismatch { .. } => ErrorKind::FieldSizeMismatch,
            GbfError::FieldCrcMismatch { .. } => ErrorKind::FieldCrcMismatch,
        }
    }

    /// The kind of this error.
    pub fn kind(&self) -> (k: ErrorKind)
        ensures
            k == self.kind_of(),
            k == self@.kind(),
    {
        match self {
            GbfError::Io(_) => ErrorKind::Io,
            GbfError::Utf8(_) => ErrorKind::Utf8,
            GbfError::Json(_) => ErrorKind::Json,
            GbfError::Format(_) => ErrorKind::Format,
            GbfError::Unsupported(_) => ErrorKind::Unsupported,
            GbfError::HeaderCrcMismatch { .. } => ErrorKind::HeaderCrcMismatch,
            GbfError::FileSizeMismatch { .. } => ErrorKind::FileSizeMismatch,
            GbfError::VarNotFound(_) => ErrorKind::VarNotFound,
            GbfError::FieldOutOfBounds { .. } => ErrorKind::FieldOutOfBounds,
            GbfError::DecompressionFailed { .. } => ErrorKind::DecompressionFailed,
            GbfError::FieldSizeMismatch { .. } => ErrorKind::FieldSizeMismatch,
            GbfError::FieldCrcMismatch { .. } => ErrorKind::FieldCrcMismatch,
        }
    }

    /// Whether the error names a field or a path: in its message, or in the
    /// place that its kind has for the name.
    pub open spec fn names(&self, name: Seq<char>) -> bool {
        match self {
            GbfError::Format(m) => mentions(m@, name),
            GbfError::Unsupported(m) => mentions(m@, name),
            GbfError::VarNotFound(p) => p@ == name,
            GbfError::FieldOutOfBounds { name: n, .. } => n@ == name,
            GbfError::DecompressionFailed { name: n, .. } => n@ == name,
            GbfError::FieldSizeMismatch { name: n, .. } => n@ == name,
            GbfError::FieldCrcMismatch { name: n, .. } => n@ == name,
            _ => false,
        }
    }

    /// The description of the error: what kind it is, and its details.
    pub open spec fn message_of(&self) -> Seq<char> {
        match self {
            GbfError::Io(m) => "I/O error: "@ + m@,
            GbfError::Utf8(m) => "UTF-8 error: "@ + m@,
            GbfError::Json(m) => "JSON error: "@ + m@,
            GbfError::Format(m) => "format error: "@ + m@,
            GbfError::Unsupported(m) => "unsupported value: "@ + m@,
            GbfError::HeaderCrcMismatch { expected, got } => "header CRC mismatch: expected "@
                + expected@ + ", got "@ + got@,
            GbfError::FileSizeMismatch { expected, got } => "file size mismatch: expected "@
                + decimal_of(*expected) + " bytes, got "@ + decimal_of(*got) + " bytes"@,
            GbfError::VarNotFound(p) => "variable not found: "@ + p@,
            GbfError::FieldOutOfBounds { name, offset, csize, payload_len } => "field `"@ + name@
                + "` chunk out of bounds (offset "@ + decimal_of(*offset) + ", csize "@
                + decimal_of(*csize) + ", payload_len "@ + decimal_of(*payload_len) + ")"@,
            GbfError::DecompressionFailed { name, message } => "failed to decompress field `"@
                + name@ + "`: "@ + message@,
            GbfError::FieldSizeMismatch { name, expected, got } => "field `"@ + name@
                + "` decoded size mismatch: expected "@ + decimal_of(*expected)
                + " bytes, got "@ + decimal_of(*got) + " bytes"@,
            GbfError::FieldCrcMismatch { name, expected, got } => "field `"@ + name@
                + "` CRC mismatch: expected "@ + hex8(*expected) + ", got "@ + hex8(*got),
        }
    }

    /// A one-line description of the error for people to read.
    pub fn message(&self) -> (text: String)
        ensures
            text@ == self.message_of(),
    {
        match self {
            GbfError::Io(m) => concat2("I/O error: ", m.as_str()),
            GbfError::Utf8(m) => concat2("UTF-8 error: ", m.as_str()),
            GbfError::Json(m) => concat2("JSON error: ", m.as_str()),
            GbfError::Format(m) => concat2("format error: ", m.as_str()),
            GbfError::Unsupported(m) => concat2("unsupported value: ", m.as_str()),
            GbfError::HeaderCrcMismatch { expected, got } => {
                let mut out = concat3("header CRC mismatch: expected ", expected.as_str(), ", got ");
                out.append(got.as_str());
                out
            },
            GbfError::FileSizeMismatch { expected, got } => {
                let mut out = concat3(
                    "file size mismatch: expected ",
                    decimal_text(*expected).as_str(),
                    " bytes, got ",
                );
                out.append(decimal_text(*got).as_str());
                out.append(" bytes");
                out
            },
            GbfError::VarNotFound(p) => concat2("variable not found: ", p.as_str()),
            GbfError::FieldOutOfBounds { name, offset, csize, payload_len } => {
                let mut out = concat3("field `", name.as_str(), "` chunk out of bounds (offset ");
                out.append(decimal_text(*offset).as_str());
                out.append(", csize ");
                out.append(decimal_text(*csize).as_str());
                out.append(", payload_len ");
                out.append(decimal_text(*payload_len).as_str());
                out.append(")");
                out
            },
            GbfError::DecompressionFailed { name, message } => {
                let mut out = concat3("failed to decompress field `", name.as_str(), "`: ");
                out.append(message.as_str());
                out
            },
            GbfError::FieldSizeMismatch { name, expected, got } => {
                let mut out = concat3(
                    "field `",
                    name.as_str(),
                    "` decoded size mismatch: expected ",
                );
                out.append(decimal_text(*expected).as_str());
                out.append(" bytes, got ");
                out.append(decimal_text(*got).as_str());
                out.append(" bytes");
                out
            },
            GbfError::FieldCrcMismatch { name, expected, got } => {
                let mut out = concat3("field `", name.as_str(), "` CRC mismatch: expected ");
                out.append(hex8_text(*expected).as_str());
                out.append(", got ");
                out.append(hex8_text(*got).as_str());
                out
            },
        }
    }
}

/// Whether a text holds a name somewhere.
pub open spec fn mentions(text: Seq<char>, name: Seq<char>) -> bool {
    exists|i: int| 0 <= i && i + name.len() <= text.len() && #[trigger] text.subrange(
        i,
        i + name.len(),
    ) == name
}

/// A text that is put together around a name holds the name.
pub proof fn lemma_mentions(what: Seq<char>, name: Seq<char>, rest: Seq<char>)
    ensures
        mentions(what + name + rest, name),
{
    let text = what + name + rest;
    let i = what.len() as int;
    assert(text.subrange(i, i + name.len()) =~= name);
}

/// A `Format` error whose message is `what`, then `name`, then `rest`.
pub fn format_error(what: &str, name: &str, rest: &str) -> (e: GbfError)
    ensures
        e matches GbfError::Format(m) && m@ == what@ + name@ + rest@,
        e.names(name@),
{
    proof {
        lemma_mentions(what@, name@, rest@);
    }
    GbfError::Format(concat3(what, name, rest))
}

/// An `Unsupported` error whose message is `what`, then `name`, then `rest`.
pub fn unsupported_error(what: &str, name: &str, rest: &str) -> (e: GbfError)
    ensures
        e matches GbfError::Unsupported(m) && m@ == what@ + name@ + rest@,
        e.names(name@),
{
    proof {
        lemma_mentions(what@, name@, rest@);
    }
    GbfError::Unsupported(concat3(what, name, rest))
}

} // verus!
