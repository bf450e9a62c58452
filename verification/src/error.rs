//! The errors of reading and writing images and datasets.
use vstd::prelude::*;

verus! {

/// What went wrong.
#[derive(Debug, Clone, Copy, PartialEq, Eq, Structural)]
pub enum ErrorKind {
    InvalidInput,
    InvalidData,
    NotFound,
    UnexpectedEof,
    /// An image whose dimensions could not be read; the message is its path.
    Unreadable,
}

/// An error with its message.
#[derive(Debug, Clone, PartialEq, Eq)]
pub struct DataError {
    pub kind: ErrorKind,
    pub message: String,
}

impl View for DataError {
    type V = (ErrorKind, Seq<char>);

    open spec fn view(&self) -> (ErrorKind, Seq<char>) {
        (self.kind, self.message@)
    }
}

} // verus!
