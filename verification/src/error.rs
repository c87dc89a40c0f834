//! The failure an operation on a share ends in: what happened, and whether the
//! same operation may succeed if it is tried again.

use vstd::prelude::*;

verus! {

/// A failure: its message, and whether it is worth trying again.
#[derive(Clone, Debug, PartialEq, Eq)]
pub struct TransportError {
    pub message: String,
    pub retryable: bool,
}

/// What a [`TransportError`] says, as a mathematical value.
pub struct Fault {
    pub message: Seq<char>,
    pub retryable: bool,
}

impl View for TransportError {
    type V = Fault;

    open spec fn view(&self) -> Fault {
        Fault { message: self.message@, retryable: self.retryable }
    }
}

/// A failure that another try will not mend.
pub open spec fn permanent_fault(message: Seq<char>) -> Fault {
    Fault { message, retryable: false }
}

/// `result` is the value or the failure that `expected` names.
pub open spec fn agrees<T: View>(
    result: Result<T, TransportError>,
    expected: Result<T::V, Fault>,
) -> bool {
    match (result, expected) {
        (Ok(value), Ok(model)) => value@ == model,
        (Err(error), Err(fault)) => error@ == fault,
        _ => false,
    }
}

impl TransportError {
    /// A failure that may pass: the same operation can be tried again.
    pub fn retryable(message: String) -> (error: Self)
        ensures
            error@ == (Fault { message: message@, retryable: true }),
    {
        TransportError { message, retryable: true }
    }

    /// A failure that will not pass.
    pub fn permanent(message: String) -> (error: Self)
        ensures
            error@ == permanent_fault(message@),
    {
        TransportError { message, retryable: false }
    }
}

/// The peer broke the protocol, in the way `message` says.
pub fn protocol_error(message: &str) -> (error: TransportError)
    ensures
        error@ == permanent_fault(message@),
{
    TransportError::permanent(message.to_owned())
}

} // verus!
