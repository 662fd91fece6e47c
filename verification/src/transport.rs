//! What the framing asks of a datagram channel: to send one datagram, and to
//! receive one. How a channel fails is its own affair.

use vstd::prelude::*;

verus! {

/// The error type of the standard library's I/O, carried through unread.
#[verifier::external_type_specification]
#[verifier::external_body]
pub struct ExIoError(std::io::Error);

#[derive(Debug)]
pub enum TransportError {
    Io(std::io::Error),
}

impl From<std::io::Error> for TransportError {
    fn from(error: std::io::Error) -> (wrapped: Self)
        ensures
            wrapped == TransportError::Io(error),
    {
        Self::Io(error)
    }
}

impl vstd::std_specs::convert::FromSpecImpl<std::io::Error> for TransportError {
    open spec fn obeys_from_spec() -> bool {
        true
    }

    open spec fn from_spec(error: std::io::Error) -> Self {
        TransportError::Io(error)
    }
}

/// Sends datagrams to the peer that the channel is connected to.
pub trait PacketSender {
    /// Sends `packet` as one datagram and says how many bytes went out.
    fn send(&mut self, packet: &[u8]) -> Result<usize, TransportError>;
}

/// Receives datagrams from the peer that the channel is connected to.
pub trait PacketReceiver {
    /// Receives one datagram into `buffer` and says how many bytes came in.
    fn receive(&mut self, buffer: &mut [u8]) -> Result<usize, TransportError>;
}

} // verus!
