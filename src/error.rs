use vstd::prelude::*;

verus! {

/// The kinds of error that the store reports.
#[derive(Clone, Copy, Debug, PartialEq, Eq, Structural)]
pub enum ErrorKind {
    /// A read or write of the log failed, or the log does not decode.
    IoError,
    /// `remove` was asked for a key that the store does not hold.
    KeyNotPresent,
    /// Any other failure.
    UnknownError,
}

/// An error of the store, with its kind.
#[derive(Clone, Copy, Debug, PartialEq, Eq, Structural)]
pub struct Error {
    kind: ErrorKind,
}

impl Error {
    /// The kind of this error.
    pub closed spec fn spec_kind(&self) -> ErrorKind {
        self.kind
    }

    /// Creates an error of the given kind.
    pub fn new(kind: ErrorKind) -> (e: Self)
        ensures
            e.spec_kind() == kind,
    {
        Error { kind }
    }

    /// The kind of this error.
    pub fn kind(&self) -> (k: &ErrorKind)
        ensures
            *k == self.spec_kind(),
    {
        &self.kind
    }
}

impl ErrorKind {
    /// A short description of the error kind.
    pub fn description(&self) -> (s: &'static str)
        ensures
            *self == ErrorKind::IoError ==> s@ == "An I/O error occurred"@,
            *self == ErrorKind::KeyNotPresent ==> s@ == "Key not present in database"@,
            *self == ErrorKind::UnknownError ==> s@ == "An unknown error occurred"@,
    {
        match self {
            ErrorKind::IoError => "An I/O error occurred",
            ErrorKind::KeyNotPresent => "Key not present in database",
            ErrorKind::UnknownError => "An unknown error occurred",
        }
    }
}

} // verus!
