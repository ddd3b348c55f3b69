//! What can go wrong while a request is served, and the status a client sees.

use vstd::prelude::*;

verus! {

/// The ways in which a request fails. A search hit that no stored item
/// answers to is not among them: such a hit is dropped.
#[derive(Clone, Copy, Debug, PartialEq, Eq, Structural)]
pub enum Fault {
    /// The credential is missing, malformed or was not accepted.
    AuthDenied,
    /// The request body could not be read as the form it should hold.
    BadRequest,
    /// The item store failed, or a stored record could not be decoded.
    StoreFault,
    /// The search engine could not be reached, or answered with something
    /// that cannot be used.
    EngineFault,
}

/// The request was served.
pub const STATUS_OK: u16 = 200;

/// The body was not the form that the route takes.
pub const STATUS_BAD_REQUEST: u16 = 400;

/// The credential was not admitted.
pub const STATUS_UNAUTHORIZED: u16 = 401;

/// The store or the engine failed.
pub const STATUS_SERVER_ERROR: u16 = 500;

impl Fault {
    /// The status shown to the client. Faults of the store and of the engine
    /// share one status, so that nothing of the inside leaks.
    pub open spec fn status_of(self) -> u16 {
        match self {
            Fault::AuthDenied => STATUS_UNAUTHORIZED,
            Fault::BadRequest => STATUS_BAD_REQUEST,
            Fault::StoreFault => STATUS_SERVER_ERROR,
            Fault::EngineFault => STATUS_SERVER_ERROR,
        }
    }

    /// The status shown to the client.
    pub fn status(&self) -> (code: u16)
        ensures
            code == self.status_of(),
    {
        match self {
            Fault::AuthDenied => STATUS_UNAUTHORIZED,
            Fault::BadRequest => STATUS_BAD_REQUEST,
            Fault::StoreFault => STATUS_SERVER_ERROR,
            Fault::EngineFault => STATUS_SERVER_ERROR,
        }
    }
}

/// The status of a finished request: 200 where it succeeded, else the
/// status of its fault.
pub open spec fn outcome_status(outcome: Result<(), Fault>) -> u16 {
    match outcome {
        Ok(_) => STATUS_OK,
        Err(fault) => fault.status_of(),
    }
}

/// The status of a finished request.
pub fn status_for(outcome: &Result<(), Fault>) -> (code: u16)
    ensures
        code == outcome_status(*outcome),
{
    match outcome {
        Ok(_) => STATUS_OK,
        Err(fault) => fault.status(),
    }
}

} // verus!
