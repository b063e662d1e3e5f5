use vstd::prelude::*;

verus! {

/// The errors that the library reports.
#[derive(Debug)]
pub enum AflError {
    /// A collection that had to hold an entry was empty.
    Empty(String),
    /// An argument was not in the form that the operation accepts.
    IllegalArgument(String),
    /// A file could not be opened or read; the message says why.
    File(String),
}

/// `e` is an `IllegalArgument` error with message `msg`.
pub open spec fn is_illegal_argument(e: AflError, msg: Seq<char>) -> bool {
    match e {
        AflError::IllegalArgument(m) => m@ == msg,
        _ => false,
    }
}

} // verus!
