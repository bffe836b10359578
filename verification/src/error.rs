//! What can go wrong with a command.

use crate::response::ResponseError;
use vstd::prelude::*;

verus! {

/// Why a frame could not be written or read.
#[derive(Debug, Clone, Copy, PartialEq, Eq, Structural)]
pub enum TransportError {
    /// Writing to the connection failed.
    Write,
    /// Reading from the connection failed.
    Read,
    /// The connection ended before the response did.
    UnexpectedEof,
    /// The connection did not answer in time.
    TimedOut,
}

/// Why a command did not succeed.
#[derive(Debug, Clone, Copy, PartialEq, Eq)]
pub enum CallError {
    /// The exchange itself broke down.
    Transport(TransportError),
    /// The server answered with a failure; `None` where it gave a status
    /// that is not recognized.
    Response(Option<ResponseError>),
}

} // verus!
