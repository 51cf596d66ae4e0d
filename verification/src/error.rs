//! Error kinds reported by the codec and by a session.

use vstd::prelude::*;

verus! {

/// Everything that can go wrong while building, exchanging or decoding a message.
#[derive(Clone, Copy, Debug, PartialEq, Eq, Structural)]
pub enum SnmpError {
    /// The transport refused to send the request.
    SendFailure,
    /// The transport failed while waiting for the response.
    ReceiveFailure,
    /// No response arrived before the deadline.
    ReceiveTimeout,
    /// The received bytes are not a well-formed message.
    MalformedEncoding,
    /// The message decoded, but it is not a response.
    WrongMessageType,
    /// The response answers another request.
    RequestIdMismatch,
    /// The response carries another community string.
    CommunityMismatch,
    /// A value that cannot be written in a set request.
    UnsupportedValueType,
    /// The encoded message does not fit the send buffer.
    BufferExhausted,
}

pub type SnmpResult<T> = Result<T, SnmpError>;

} // verus!
