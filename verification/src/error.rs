//! The engine's error type.
use vstd::prelude::*;
use serde_json::Value as JsonValue;
use vstd::string::StringExecFns;

verus! {

#[verifier::external_type_specification]
#[verifier::external_body]
pub struct ExIoError(std::io::Error);

#[verifier::external_type_specification]
#[verifier::external_body]
pub struct ExUtf8Error(std::str::Utf8Error);

#[verifier::external_type_specification]
#[verifier::external_body]
pub struct ExJsonError(serde_json::Error);

#[verifier::external_type_specification]
#[verifier::external_body]
pub struct ExJsonValue(JsonValue);

/// Everything that can go wrong in the engine.
#[derive(Debug)]
pub enum DbError {
    Io(std::io::Error),
    Json(serde_json::Error),
    Utf8(std::str::Utf8Error),
    InvalidFormat(String),
    InvalidData(String),
    InvalidRootDocument,
    MissingId,
    DuplicateId(String),
    NotFound(String),
    UnsupportedQuery(String),
    TypeMismatch(String),
}

/// The kind of an error, with the document id where the error names one.
pub enum ErrorKind {
    Io,
    Json,
    Utf8,
    InvalidFormat,
    InvalidData,
    InvalidRootDocument,
    MissingId,
    DuplicateId(Seq<char>),
    NotFound(Seq<char>),
    UnsupportedQuery,
    TypeMismatch,
}

impl DbError {
    pub open spec fn kind(self) -> ErrorKind {
        match self {
            DbError::Io(_) => ErrorKind::Io,
            DbError::Json(_) => ErrorKind::Json,
            DbError::Utf8(_) => ErrorKind::Utf8,
            DbError::InvalidFormat(_) => ErrorKind::InvalidFormat,
            DbError::InvalidData(_) => ErrorKind::InvalidData,
            DbError::InvalidRootDocument => ErrorKind::InvalidRootDocument,
            DbError::MissingId => ErrorKind::MissingId,
            DbError::DuplicateId(id) => ErrorKind::DuplicateId(id@),
            DbError::NotFound(id) => ErrorKind::NotFound(id@),
            DbError::UnsupportedQuery(_) => ErrorKind::UnsupportedQuery,
            DbError::TypeMismatch(_) => ErrorKind::TypeMismatch,
        }
    }
}

/// `prefix` followed by `rest`.
fn joined(prefix: &str, rest: &str) -> (r: String)
    ensures
        r@ == prefix@ + rest@,
{
    let mut s = String::from_str(prefix);
    s.append(rest);
    s
}

impl DbError {
    /// The detail an error carries: its message, or the id it names; empty
    /// for the others.
    pub open spec fn detail(self) -> Seq<char> {
        match self {
            DbError::InvalidFormat(m) => m@,
            DbError::InvalidData(m) => m@,
            DbError::UnsupportedQuery(m) => m@,
            DbError::TypeMismatch(m) => m@,
            DbError::DuplicateId(id) => id@,
            DbError::NotFound(id) => id@,
            _ => Seq::empty(),
        }
    }

    /// Whether `t` is the text of this error: a fixed text for each kind,
    /// then the detail it carries; of an I/O, JSON or UTF-8 error, only the
    /// fixed start.
    pub open spec fn describes(self, t: Seq<char>) -> bool {
        match self {
            DbError::Io(_) => "I/O error: "@.is_prefix_of(t),
            DbError::Json(_) => "JSON error: "@.is_prefix_of(t),
            DbError::Utf8(_) => "UTF-8 error: "@.is_prefix_of(t),
            DbError::InvalidFormat(m) => t == "invalid format: "@ + m@,
            DbError::InvalidData(m) => t == "invalid data: "@ + m@,
            DbError::InvalidRootDocument => t == "root document must be an object"@,
            DbError::MissingId => t == "document is missing required string _id"@,
            DbError::DuplicateId(id) => t == "duplicate _id: "@ + id@,
            DbError::NotFound(id) => t == "document not found: "@ + id@,
            DbError::UnsupportedQuery(m) => t == "unsupported query: "@ + m@,
            DbError::TypeMismatch(m) => t == "type mismatch: "@ + m@,
        }
    }

    /// The text that describes the error: a fixed text for each kind, then
    /// the detail it carries. The detail of an I/O, JSON or UTF-8 error is
    /// the text of the underlying error.
    pub fn to_string(&self) -> (r: String)
        ensures
            self.describes(r@),
    {
        match self {
            DbError::Io(e) => {
                let detail = e.to_string();
                joined("I/O error: ", detail.as_str())
            },
            DbError::Json(e) => {
                let detail = e.to_string();
                joined("JSON error: ", detail.as_str())
            },
            DbError::Utf8(e) => {
                let detail = e.to_string();
                joined("UTF-8 error: ", detail.as_str())
            },
            DbError::InvalidFormat(m) => joined("invalid format: ", m.as_str()),
            DbError::InvalidData(m) => joined("invalid data: ", m.as_str()),
            DbError::InvalidRootDocument => message("root document must be an object"),
            DbError::MissingId => message("document is missing required string _id"),
            DbError::DuplicateId(id) => joined("duplicate _id: ", id.as_str()),
            DbError::NotFound(id) => joined("document not found: ", id.as_str()),
            DbError::UnsupportedQuery(m) => joined("unsupported query: ", m.as_str()),
            DbError::TypeMismatch(m) => joined("type mismatch: ", m.as_str()),
        }
    }
}

/// A message for an error.
pub fn message(text: &str) -> (r: String)
    ensures
        r@ == text@,
{
    text.to_owned()
}

} // verus!
