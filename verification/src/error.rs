//! What can go wrong while an archive is opened, listed or unpacked.
use vstd::prelude::*;
use vstd::string::StringExecFns;

use crate::text;
use crate::text::{copy_text, decimal_text};

verus! {

/// The kinds of input and output failure that are told apart.
#[derive(Debug, Clone, Copy, PartialEq, Eq, Structural)]
pub enum IoKind {
    NotFound,
    PermissionDenied,
    Interrupted,
    InvalidInput,
    InvalidData,
    UnexpectedEof,
    Other,
}

/// A failed input or output operation.
#[derive(Debug)]
pub struct IoError {
    pub kind: IoKind,
    pub message: String,
}

/// The failures of this library.
#[derive(Debug)]
pub enum Error {
    Io(IoError),
    UnknownFormat,
    Unsupported { format: String, feature: String },
    Encrypted,
    WrongPassword,
    Corrupt(String),
    PathTraversal(String),
    MissingVolume(String),
    InvalidIndex(usize),
}

/// An `Error` with its texts as sequences of characters.
pub enum ErrorView {
    Io { kind: IoKind, message: Seq<char> },
    UnknownFormat,
    Unsupported { format: Seq<char>, feature: Seq<char> },
    Encrypted,
    WrongPassword,
    Corrupt(Seq<char>),
    PathTraversal(Seq<char>),
    MissingVolume(Seq<char>),
    InvalidIndex(int),
}

impl View for Error {
    type V = ErrorView;

    open spec fn view(&self) -> ErrorView {
        match *self {
            Error::Io(e) => ErrorView::Io { kind: e.kind, message: e.message@ },
            Error::UnknownFormat => ErrorView::UnknownFormat,
            Error::Unsupported { format, feature } => ErrorView::Unsupported { format: format@, feature: feature@ },
            Error::Encrypted => ErrorView::Encrypted,
            Error::WrongPassword => ErrorView::WrongPassword,
            Error::Corrupt(m) => ErrorView::Corrupt(m@),
            Error::PathTraversal(m) => ErrorView::PathTraversal(m@),
            Error::MissingVolume(m) => ErrorView::MissingVolume(m@),
            Error::InvalidIndex(i) => ErrorView::InvalidIndex(i as int),
        }
    }
}

impl From<IoError> for Error {
    fn from(e: IoError) -> (r: Error) {
        Error::Io(e)
    }
}

impl vstd::std_specs::convert::FromSpecImpl<IoError> for Error {
    open spec fn obeys_from_spec() -> bool {
        true
    }

    open spec fn from_spec(e: IoError) -> Error {
        Error::Io(e)
    }
}

/// The bytes of an outside call, or the kind and text of its failure.
pub open spec fn io_bytes(r: Result<Vec<u8>, IoError>) -> Result<Seq<u8>, (IoKind, Seq<char>)> {
    match r {
        Ok(v) => Ok(v@),
        Err(e) => Err((e.kind, e.message@)),
    }
}

/// The standard library's input and output failure.
#[verifier::external_type_specification]
#[verifier::external_body]
pub struct ExStdIoError(std::io::Error);

/// `std::io::Error::kind`, told apart as far as `IoKind` goes, and the text that
/// the error displays. Nothing is claimed of either.
#[verifier::external_body]
pub(crate) fn io_error(e: std::io::Error) -> (r: IoError) {
    let kind = match e.kind() {
        std::io::ErrorKind::NotFound => IoKind::NotFound,
        std::io::ErrorKind::PermissionDenied => IoKind::PermissionDenied,
        std::io::ErrorKind::Interrupted => IoKind::Interrupted,
        std::io::ErrorKind::InvalidInput => IoKind::InvalidInput,
        std::io::ErrorKind::InvalidData => IoKind::InvalidData,
        std::io::ErrorKind::UnexpectedEof => IoKind::UnexpectedEof,
        _ => IoKind::Other,
    };
    IoError { kind, message: e.to_string() }
}

/// An input or output failure of the standard library as an error of this one.
pub fn from_std(e: std::io::Error) -> (r: Error)
    ensures
        r is Io,
{
    Error::Io(io_error(e))
}

/// How a failed outside call is reported: bad data and a short input mean a
/// damaged archive, anything else stays an input failure.
pub open spec fn io_error_view(kind: IoKind, message: Seq<char>) -> ErrorView {
    if kind == IoKind::InvalidData || kind == IoKind::UnexpectedEof {
        ErrorView::Corrupt(message)
    } else {
        ErrorView::Io { kind, message }
    }
}

/// Bad data and a short input become `Corrupt`; every other failure stays `Io`.
pub fn io_err_to_corrupt(e: IoError) -> (r: Error)
    ensures
        r@ == io_error_view(e.kind, e.message@),
{
    match e.kind {
        IoKind::InvalidData | IoKind::UnexpectedEof => Error::Corrupt(e.message),
        _ => Error::Io(e),
    }
}

/// A damaged archive, with a text that says how.
pub fn corrupt(message: &str) -> (r: Error)
    ensures
        r@ == ErrorView::Corrupt(message@),
{
    Error::Corrupt(message.to_owned())
}

/// A feature of a format that is not supported.
pub fn unsupported(format: &str, feature: &str) -> (r: Error)
    ensures
        r@ == (ErrorView::Unsupported { format: format@, feature: feature@ }),
{
    Error::Unsupported { format: format.to_owned(), feature: feature.to_owned() }
}

/// The message shown for an error.
pub open spec fn message_of(e: ErrorView) -> Seq<char> {
    match e {
        ErrorView::Io { message, .. } => "I/O error: "@ + message,
        ErrorView::UnknownFormat => "unknown or unsupported archive format"@,
        ErrorView::Unsupported { format, feature } => "format "@ + format + ": feature not supported: "@ + feature,
        ErrorView::Encrypted => "archive is encrypted; a password is required"@,
        ErrorView::WrongPassword => "incorrect password"@,
        ErrorView::Corrupt(m) => "archive is corrupt: "@ + m,
        ErrorView::PathTraversal(m) => "unsafe path in archive (path traversal): "@ + m,
        ErrorView::MissingVolume(m) => "missing volume for multi-part archive: "@ + m,
        ErrorView::InvalidIndex(i) => "internal: entry index out of range: "@ + text::decimal(i as nat),
    }
}

impl Error {
    /// A copy of this error.
    pub fn copy(&self) -> (r: Error)
        ensures
            r@ == self@,
    {
        match self {
            Error::Io(e) => Error::Io(IoError { kind: e.kind, message: copy_text(e.message.as_str()) }),
            Error::UnknownFormat => Error::UnknownFormat,
            Error::Unsupported { format, feature } => unsupported(format.as_str(), feature.as_str()),
            Error::Encrypted => Error::Encrypted,
            Error::WrongPassword => Error::WrongPassword,
            Error::Corrupt(m) => Error::Corrupt(copy_text(m.as_str())),
            Error::PathTraversal(m) => Error::PathTraversal(copy_text(m.as_str())),
            Error::MissingVolume(m) => Error::MissingVolume(copy_text(m.as_str())),
            Error::InvalidIndex(i) => Error::InvalidIndex(*i),
        }
    }

    /// The message shown for this error.
    pub fn to_string(&self) -> (r: String)
        ensures
            r@ == message_of(self@),
    {
        match self {
            Error::Io(e) => "I/O error: ".to_owned().concat(e.message.as_str()),
            Error::UnknownFormat => "unknown or unsupported archive format".to_owned(),
            Error::Unsupported { format, feature } => "format ".to_owned().concat(format.as_str()).concat(
                ": feature not supported: ",
            ).concat(feature.as_str()),
            Error::Encrypted => "archive is encrypted; a password is required".to_owned(),
            Error::WrongPassword => "incorrect password".to_owned(),
            Error::Corrupt(m) => "archive is corrupt: ".to_owned().concat(m.as_str()),
            Error::PathTraversal(m) => "unsafe path in archive (path traversal): ".to_owned().concat(m.as_str()),
            Error::MissingVolume(m) => "missing volume for multi-part archive: ".to_owned().concat(m.as_str()),
            Error::InvalidIndex(i) => {
                let n = decimal_text(*i as u64);
                "internal: entry index out of range: ".to_owned().concat(n.as_str())
            },
        }
    }
}

/// `r` is the failure `e`.
pub open spec fn fails_with<T>(r: Result<T, Error>, e: ErrorView) -> bool {
    r matches Err(x) && x@ == e
}

} // verus!
