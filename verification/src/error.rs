//! The errors that the engine reports.

use vstd::prelude::*;

verus! {

/// Why an operation was refused.
#[derive(Debug)]
pub enum Error {
    /// A table, column, region or constant that the operation needs is absent.
    NotFound(String),
    /// The operation is known but cannot be carried out here.
    Unsupported(String),
    /// The query text is not well formed.
    Parse(String),
    /// Anything else.
    Other(String),
}

/// What an error says.
pub enum Fail {
    NotFound(Seq<char>),
    Unsupported(Seq<char>),
    Parse(Seq<char>),
    Other(Seq<char>),
}

impl Error {
    pub open spec fn view(&self) -> Fail {
        match self {
            Error::NotFound(m) => Fail::NotFound(m@),
            Error::Unsupported(m) => Fail::Unsupported(m@),
            Error::Parse(m) => Fail::Parse(m@),
            Error::Other(m) => Fail::Other(m@),
        }
    }
}

} // verus!
