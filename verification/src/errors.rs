//! The error type shared by all stages.

use vstd::prelude::*;

verus! {

/// What went wrong, independent of the wording of the message.
#[derive(Clone, Copy, Debug, PartialEq, Eq, Structural)]
pub enum ErrorKind {
    /// An attribute value or a byte string could not be decoded.
    Decode,
    /// An element carried an attribute that it may not carry, or lacked one
    /// that it must carry.
    Attribute,
    /// An element or event appeared where the document structure forbids it.
    Structure,
    /// A relation member named a way that has not been read.
    Reference,
    /// An entity or a polygon without any constituent part.
    Geometry,
    /// Anything reported from outside the library.
    Other,
}

/// An error: its kind, and a message for people.
#[derive(Debug)]
pub struct Error {
    pub kind: ErrorKind,
    pub message: String,
}

pub type Result<T> = std::result::Result<T, Error>;

impl Error {
    /// An error of the given kind with the given message.
    pub fn new(kind: ErrorKind, message: &str) -> (e: Error)
        ensures
            e.kind == kind,
            e.message@ == message@,
    {
        Error { kind, message: message.to_owned() }
    }
}

impl From<String> for Error {
    fn from(value: String) -> (e: Error) {
        Error { kind: ErrorKind::Other, message: value }
    }
}

impl vstd::std_specs::convert::FromSpecImpl<String> for Error {
    open spec fn obeys_from_spec() -> bool {
        true
    }

    open spec fn from_spec(value: String) -> Error {
        Error { kind: ErrorKind::Other, message: value }
    }
}

} // verus!
