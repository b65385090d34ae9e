//! Errors of the network transports that carry protocol messages.

use vstd::prelude::*;

verus! {

/// What can go wrong on a transport.
#[derive(Debug)]
pub enum TransportError {
    ConnectionFailed(String),
    SendFailed(String),
    ReceiveFailed(String),
    Closed,
    Serialization(String),
}

} // verus!
