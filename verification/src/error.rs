//! The two ways a call can fail: a malformed query path, or a record whose
//! structure the extractor cannot resolve.
use vstd::prelude::*;

verus! {

/// The error for parsing a JSON record.
#[derive(Debug, PartialEq, Eq, Structural)]
pub struct Error {
    kind: ErrorKind,
}

impl Error {
    /// The kind of this error, in specifications.
    pub closed spec fn spec_kind(self) -> ErrorKind {
        self.kind
    }

    /// The kind of this error.
    pub fn kind(&self) -> (k: ErrorKind)
        ensures
            k == self.spec_kind(),
    {
        self.kind
    }

    /// Builds the error of the given kind.
    pub fn of(kind: ErrorKind) -> (e: Error)
        ensures
            e.spec_kind() == kind,
    {
        Error { kind }
    }

    /// A short human-readable description.
    pub fn as_str(&self) -> (s: &'static str)
        ensures
            s@ == self.spec_kind().desc(),
    {
        self.kind.as_str()
    }
}

/// The error `From` converts a kind into.
pub closed spec fn of_kind_spec(kind: ErrorKind) -> Error {
    Error { kind }
}

/// What converting a kind yields.
pub proof fn lemma_of_kind(kind: ErrorKind)
    ensures
        of_kind_spec(kind).spec_kind() == kind,
{
}

impl From<ErrorKind> for Error {
    /// Builds the error of the given kind.
    fn from(kind: ErrorKind) -> (e: Error) {
        Error { kind }
    }
}

impl vstd::std_specs::convert::FromSpecImpl<ErrorKind> for Error {
    open spec fn obeys_from_spec() -> bool {
        true
    }

    open spec fn from_spec(kind: ErrorKind) -> Error {
        of_kind_spec(kind)
    }
}

/// The kind of error for parsing a JSON record.
#[derive(Clone, Copy, Debug, PartialEq, Eq, Structural)]
pub enum ErrorKind {
    InvalidQuery,
    InvalidRecord,
}

impl ErrorKind {
    /// The description `as_str` returns.
    pub open spec fn desc(self) -> Seq<char> {
        match self {
            ErrorKind::InvalidQuery => "invalid query"@,
            ErrorKind::InvalidRecord => "invalid record"@,
        }
    }

    /// A short human-readable description.
    pub fn as_str(&self) -> (s: &'static str)
        ensures
            s@ == self.desc(),
    {
        match *self {
            ErrorKind::InvalidQuery => "invalid query",
            ErrorKind::InvalidRecord => "invalid record",
        }
    }
}

} // verus!
