//! One packet per datagram: the header, then the payload as it is.

use vstd::prelude::*;
use vstd::slice::{slice_subrange, slice_to_vec};
use crate::packet::{
    VideoPacket,
    VideoPacketHeader,
    VideoPacketView,
    VIDEO_PACKET_HEADER_LENGTH,
};

verus! {

#[derive(Debug, Clone, Copy, PartialEq, Eq, Structural)]
pub enum PacketCodecError {
    BufferTooSmall,
}

impl VideoPacketView {
    /// The datagram that carries this packet.
    pub open spec fn wire_bytes(self) -> Seq<u8> {
        self.header.wire_bytes() + self.payload
    }

    /// The packet that a datagram of at least twenty bytes carries. The
    /// payload is whatever follows the header; it is not looked into.
    pub open spec fn from_wire(bytes: Seq<u8>) -> Self
        recommends
            bytes.len() >= VIDEO_PACKET_HEADER_LENGTH,
    {
        VideoPacketView {
            header: VideoPacketHeader::from_wire(bytes),
            payload: bytes.skip(VIDEO_PACKET_HEADER_LENGTH as int),
        }
    }

    /// What a receiver makes of a datagram: a packet, unless the datagram is
    /// shorter than a header.
    pub open spec fn decoded(bytes: Seq<u8>) -> Result<Self, PacketCodecError> {
        if bytes.len() < VIDEO_PACKET_HEADER_LENGTH {
            Err(PacketCodecError::BufferTooSmall)
        } else {
            Ok(Self::from_wire(bytes))
        }
    }

    /// Decoding an encoded packet gives the packet back.
    pub proof fn lemma_decode_of_encode(self)
        ensures
            self.wire_bytes().len() == VIDEO_PACKET_HEADER_LENGTH + self.payload.len(),
            Self::from_wire(self.wire_bytes()) == self,
            Self::decoded(self.wire_bytes()) == Ok::<Self, PacketCodecError>(self),
    {
        self.header.lemma_decode_of_encode(self.payload);
        assert(self.wire_bytes().skip(VIDEO_PACKET_HEADER_LENGTH as int) =~= self.payload);
    }

    /// Encoding a decoded datagram gives the datagram back.
    pub proof fn lemma_encode_of_decode(bytes: Seq<u8>)
        requires
            bytes.len() >= VIDEO_PACKET_HEADER_LENGTH,
        ensures
            Self::from_wire(bytes).wire_bytes() == bytes,
    {
        VideoPacketHeader::lemma_encode_of_decode(bytes);
        assert(Self::from_wire(bytes).wire_bytes() =~= bytes);
    }
}

/// Lays a packet out as one datagram in a buffer of its own.
pub fn encode_packet(packet: &VideoPacket) -> (buffer: Vec<u8>)
    ensures
        buffer@ == packet@.wire_bytes(),
        buffer@.len() == VIDEO_PACKET_HEADER_LENGTH + packet.payload@.len(),
{
    let mut buffer: Vec<u8> = vec![0u8; VIDEO_PACKET_HEADER_LENGTH];
    let _ = packet.header.encode(buffer.as_mut_slice());
    buffer.extend_from_slice(packet.payload.as_slice());
    proof {
        packet.header.lemma_wire_bytes_layout();
        assert(buffer@ =~= packet@.wire_bytes());
    }
    buffer
}

/// Splits a datagram into header and payload. A datagram shorter than a
/// header is rejected; nothing else about it is.
pub fn decode_packet(buffer: &[u8]) -> (result: Result<VideoPacket, PacketCodecError>)
    ensures
        match VideoPacketView::decoded(buffer@) {
            Ok(packet) => result matches Ok(made) && made@ == packet,
            Err(error) => result matches Err(raised) && raised == error,
        },
{
    if buffer.len() < VIDEO_PACKET_HEADER_LENGTH {
        return Err(PacketCodecError::BufferTooSmall);
    }
    let header = match VideoPacketHeader::decode(buffer) {
        Ok(header) => header,
        Err(_) => {
            return Err(PacketCodecError::BufferTooSmall);
        },
    };
    let payload = slice_to_vec(slice_subrange(buffer, VIDEO_PACKET_HEADER_LENGTH, buffer.len()));
    Ok(VideoPacket { header, payload })
}

} // verus!
