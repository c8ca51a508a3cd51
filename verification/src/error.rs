//! The failures that ledger and scheduling operations report.

use vstd::prelude::*;

verus! {

/// Why an operation on a stock or on a path of processes failed.
#[derive(Debug, Clone, PartialEq, Eq)]
pub enum Error {
    /// A step needs more of the named resource than the stock holds.
    InsufficientResource(String),
    /// A path names a process that the catalog does not hold.
    UnknownProcess(String),
    /// A quantity, a weight or a score left the range of its machine type;
    /// the text names what overflowed.
    Overflow(String),
}

/// The mathematical value of an [`Error`]: the same variants over sequences
/// of characters.
pub enum Failure {
    InsufficientResource(Seq<char>),
    UnknownProcess(Seq<char>),
    Overflow(Seq<char>),
}

impl View for Error {
    type V = Failure;

    open spec fn view(&self) -> Failure {
        match self {
            Error::InsufficientResource(name) => Failure::InsufficientResource(name@),
            Error::UnknownProcess(name) => Failure::UnknownProcess(name@),
            Error::Overflow(name) => Failure::Overflow(name@),
        }
    }
}

} // verus!
