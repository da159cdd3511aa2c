//! The errors that the median functions report.

use vstd::prelude::*;

verus! {

/// An error of a median computation, with a message as its payload.
#[derive(Debug)]
pub enum MedError<T> {
    /// The data has no items.
    Size(T),
    /// The data holds a NaN where none is accepted.
    Nan(T),
    /// Any other error, taken over from elsewhere.
    Other(T),
}

/// An error whose message is a `String`.
pub type Me = MedError<String>;

/// An error with its message as a sequence of characters.
pub open spec fn error_view(e: MedError<String>) -> MedError<Seq<char>> {
    match e {
        MedError::Size(m) => MedError::Size(m@),
        MedError::Nan(m) => MedError::Nan(m@),
        MedError::Other(m) => MedError::Other(m@),
    }
}

/// The error that the kind name `kind` stands for, with the message `msg`.
/// An unknown kind gives an error that says so.
pub open spec fn error_of_kind(kind: Seq<char>, msg: Seq<char>) -> MedError<Seq<char>> {
    if kind == "size"@ {
        MedError::Size(msg)
    } else if kind == "nan"@ {
        MedError::Nan(msg)
    } else if kind == "other"@ {
        MedError::Other(msg)
    } else {
        MedError::Other("Wrong error kind given to merror"@)
    }
}

/// Builds the error of the kind named `kind` with the message `msg`, as
/// the `Err` of any result type.
pub fn merror<T>(kind: &str, msg: &str) -> (r: Result<T, MedError<String>>)
    ensures
        r is Err,
        error_view(r->Err_0) == error_of_kind(kind@, msg@),
{
    let k = kind.to_owned();
    if k == "size".to_owned() {
        Err(MedError::Size(msg.to_owned()))
    } else if k == "nan".to_owned() {
        Err(MedError::Nan(msg.to_owned()))
    } else if k == "other".to_owned() {
        Err(MedError::Other(msg.to_owned()))
    } else {
        Err(MedError::Other("Wrong error kind given to merror".to_owned()))
    }
}

} // verus!
