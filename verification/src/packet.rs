//! The video packet and the fixed header that precedes every payload.

use vstd::prelude::*;
use crate::big_endian::{
    be_bytes,
    be_value,
    lemma_be_bytes_len,
    lemma_be_bytes_of_value,
    lemma_be_value_bound,
    lemma_be_value_of_bytes,
    lemma_radix_values,
    load_be,
    store_be,
};
use crate::sequence::SequenceNumber;

verus! {

/// Length in bytes of an encoded [`VideoPacketHeader`].
pub const VIDEO_PACKET_HEADER_LENGTH: usize = 4 + 8 + 4 + 2 + 2;

/// What every datagram says about the chunk that it carries.
#[derive(Debug, Clone, Copy, PartialEq, Eq, Structural)]
pub struct VideoPacketHeader {
    /// Counts packets, wrapping; the receiver does not order chunks by it.
    pub sequence_number: SequenceNumber,
    /// Presentation time of the frame, the same in all of its packets.
    pub timestamp_nanos: u64,
    /// The frame that this chunk is a part of.
    pub frame_identifier: u32,
    /// Position of this chunk within its frame, from zero.
    pub chunk_index: u16,
    /// Number of chunks that make up the frame.
    pub chunks_total: u16,
}

/// One datagram: a header and the chunk of the encoded frame that follows it.
#[derive(Debug, Eq)]
pub struct VideoPacket {
    pub header: VideoPacketHeader,
    pub payload: Vec<u8>,
}

impl Clone for VideoPacket {
    fn clone(&self) -> (copy: Self)
        ensures
            copy@ == self@,
    {
        VideoPacket { header: self.header, payload: self.payload.clone() }
    }
}

impl PartialEq for VideoPacket {
    /// Packets are equal when their headers and their payloads are.
    fn eq(&self, other: &Self) -> (equal: bool)
    {
        self.header == other.header && bytes_equal(self.payload.as_slice(), other.payload.as_slice())
    }
}

impl vstd::std_specs::cmp::PartialEqSpecImpl for VideoPacket {
    open spec fn obeys_eq_spec() -> bool {
        true
    }

    open spec fn eq_spec(&self, other: &Self) -> bool {
        self@ == other@
    }
}

/// A packet as a mathematical value: its header and the bytes that follow.
pub struct VideoPacketView {
    pub header: VideoPacketHeader,
    pub payload: Seq<u8>,
}

impl View for VideoPacket {
    type V = VideoPacketView;

    open spec fn view(&self) -> VideoPacketView {
        VideoPacketView { header: self.header, payload: self.payload@ }
    }
}

#[derive(Debug, Clone, Copy, PartialEq, Eq, Structural)]
pub enum PacketDecodeError {
    BufferTooSmall,
}

/// Whether two byte strings hold the same bytes.
pub fn bytes_equal(left: &[u8], right: &[u8]) -> (equal: bool)
    ensures
        equal == (left@ == right@),
{
    if left.len() != right.len() {
        return false;
    }
    let mut index: usize = 0;
    while index < left.len()
        invariant
            index <= left@.len(),
            left@.len() == right@.len(),
            forall|before: int| 0 <= before < index ==> left@[before] == right@[before],
        decreases left@.len() - index,
    {
        if left[index] != right[index] {
            return false;
        }
        index = index + 1;
    }
    proof {
        assert(left@ =~= right@);
    }
    true
}

impl VideoPacketHeader {
    /// The twenty bytes that stand for this header on the wire: each field
    /// big-endian, in declaration order.
    pub open spec fn wire_bytes(self) -> Seq<u8> {
        be_bytes(self.sequence_number@ as nat, 4) + be_bytes(self.timestamp_nanos as nat, 8)
            + be_bytes(self.frame_identifier as nat, 4) + be_bytes(self.chunk_index as nat, 2)
            + be_bytes(self.chunks_total as nat, 2)
    }

    /// The header that the first twenty bytes of `bytes` stand for. Whatever
    /// follows them is payload and is not looked at.
    pub open spec fn from_wire(bytes: Seq<u8>) -> Self
        recommends
            bytes.len() >= VIDEO_PACKET_HEADER_LENGTH,
    {
        VideoPacketHeader {
            sequence_number: SequenceNumber::spec_new(be_value(bytes.subrange(0, 4)) as u32),
            timestamp_nanos: be_value(bytes.subrange(4, 12)) as u64,
            frame_identifier: be_value(bytes.subrange(12, 16)) as u32,
            chunk_index: be_value(bytes.subrange(16, 18)) as u16,
            chunks_total: be_value(bytes.subrange(18, 20)) as u16,
        }
    }

    /// What a receiver makes of `bytes`: a header, unless there are fewer
    /// than twenty of them.
    pub open spec fn decoded(bytes: Seq<u8>) -> Result<Self, PacketDecodeError> {
        if bytes.len() < VIDEO_PACKET_HEADER_LENGTH {
            Err(PacketDecodeError::BufferTooSmall)
        } else {
            Ok(Self::from_wire(bytes))
        }
    }

    /// What encoding into a buffer that holds `before` leaves in the buffer:
    /// the header over the first twenty bytes and the rest as it was, or all
    /// as it was where the buffer is shorter than a header.
    pub open spec fn encoded_over(self, before: Seq<u8>) -> Seq<u8> {
        if before.len() < VIDEO_PACKET_HEADER_LENGTH {
            before
        } else {
            self.wire_bytes() + before.skip(VIDEO_PACKET_HEADER_LENGTH as int)
        }
    }

    /// A header names a chunk that exists: its index lies below the total.
    pub open spec fn names_a_chunk(self) -> bool {
        self.chunk_index < self.chunks_total
    }

    /// Writes the header over the first twenty bytes of `buffer`. A shorter
    /// buffer is left untouched and reported as too small.
    pub fn encode(self, buffer: &mut [u8]) -> (result: Result<(), PacketDecodeError>)
        ensures
            result is Err <==> old(buffer)@.len() < VIDEO_PACKET_HEADER_LENGTH,
            result matches Err(error) ==> error == PacketDecodeError::BufferTooSmall,
            final(buffer)@ == self.encoded_over(old(buffer)@),
            final(buffer)@.len() == old(buffer)@.len(),
    {
        if buffer.len() < VIDEO_PACKET_HEADER_LENGTH {
            return Err(PacketDecodeError::BufferTooSmall);
        }
        let ghost before = buffer@;
        store_be(buffer, 0, 4, self.sequence_number.value() as u64);
        store_be(buffer, 4, 8, self.timestamp_nanos);
        store_be(buffer, 12, 4, self.frame_identifier as u64);
        store_be(buffer, 16, 2, self.chunk_index as u64);
        store_be(buffer, 18, 2, self.chunks_total as u64);
        proof {
            self.lemma_wire_bytes_layout();
            assert(buffer@ =~= self.wire_bytes() + before.skip(VIDEO_PACKET_HEADER_LENGTH as int));
        }
        Ok(())
    }

    /// Reads a header from the first twenty bytes of `buffer`.
    pub fn decode(buffer: &[u8]) -> (result: Result<Self, PacketDecodeError>)
        ensures
            result == Self::decoded(buffer@),
    {
        if buffer.len() < VIDEO_PACKET_HEADER_LENGTH {
            return Err(PacketDecodeError::BufferTooSmall);
        }
        proof {
            lemma_radix_values();
            lemma_be_value_bound(buffer@.subrange(0, 4));
            lemma_be_value_bound(buffer@.subrange(12, 16));
            lemma_be_value_bound(buffer@.subrange(16, 18));
            lemma_be_value_bound(buffer@.subrange(18, 20));
        }
        let sequence_number = load_be(buffer, 0, 4) as u32;
        let timestamp_nanos = load_be(buffer, 4, 8);
        let frame_identifier = load_be(buffer, 12, 4) as u32;
        let chunk_index = load_be(buffer, 16, 2) as u16;
        let chunks_total = load_be(buffer, 18, 2) as u16;
        Ok(
            Self {
                sequence_number: SequenceNumber::new(sequence_number),
                timestamp_nanos,
                frame_identifier,
                chunk_index,
                chunks_total,
            },
        )
    }

    /// Where each field lies within the encoded header.
    pub proof fn lemma_wire_bytes_layout(self)
        ensures
            self.wire_bytes().len() == VIDEO_PACKET_HEADER_LENGTH,
            self.wire_bytes().subrange(0, 4) == be_bytes(self.sequence_number@ as nat, 4),
            self.wire_bytes().subrange(4, 12) == be_bytes(self.timestamp_nanos as nat, 8),
            self.wire_bytes().subrange(12, 16) == be_bytes(self.frame_identifier as nat, 4),
            self.wire_bytes().subrange(16, 18) == be_bytes(self.chunk_index as nat, 2),
            self.wire_bytes().subrange(18, 20) == be_bytes(self.chunks_total as nat, 2),
    {
        lemma_be_bytes_len(self.sequence_number@ as nat, 4);
        lemma_be_bytes_len(self.timestamp_nanos as nat, 8);
        lemma_be_bytes_len(self.frame_identifier as nat, 4);
        lemma_be_bytes_len(self.chunk_index as nat, 2);
        lemma_be_bytes_len(self.chunks_total as nat, 2);
        assert(self.wire_bytes().subrange(0, 4) =~= be_bytes(self.sequence_number@ as nat, 4));
        assert(self.wire_bytes().subrange(4, 12) =~= be_bytes(self.timestamp_nanos as nat, 8));
        assert(self.wire_bytes().subrange(12, 16) =~= be_bytes(self.frame_identifier as nat, 4));
        assert(self.wire_bytes().subrange(16, 18) =~= be_bytes(self.chunk_index as nat, 2));
        assert(self.wire_bytes().subrange(18, 20) =~= be_bytes(self.chunks_total as nat, 2));
    }

    /// Decoding an encoded header gives the header back, whatever bytes
    /// follow it.
    pub proof fn lemma_decode_of_encode(self, tail: Seq<u8>)
        ensures
            self.wire_bytes().len() == VIDEO_PACKET_HEADER_LENGTH,
            Self::from_wire(self.wire_bytes() + tail) == self,
            Self::decoded(self.wire_bytes() + tail) == Ok::<Self, PacketDecodeError>(self),
            self.encoded_over(self.wire_bytes() + tail) == self.wire_bytes() + tail,
    {
        let bytes = self.wire_bytes() + tail;
        self.lemma_wire_bytes_layout();
        lemma_radix_values();
        assert(bytes.subrange(0, 4) =~= self.wire_bytes().subrange(0, 4));
        assert(bytes.subrange(4, 12) =~= self.wire_bytes().subrange(4, 12));
        assert(bytes.subrange(12, 16) =~= self.wire_bytes().subrange(12, 16));
        assert(bytes.subrange(16, 18) =~= self.wire_bytes().subrange(16, 18));
        assert(bytes.subrange(18, 20) =~= self.wire_bytes().subrange(18, 20));
        lemma_be_value_of_bytes(self.sequence_number@ as nat, 4);
        lemma_be_value_of_bytes(self.timestamp_nanos as nat, 8);
        lemma_be_value_of_bytes(self.frame_identifier as nat, 4);
        lemma_be_value_of_bytes(self.chunk_index as nat, 2);
        lemma_be_value_of_bytes(self.chunks_total as nat, 2);
        SequenceNumber::lemma_value_determines(self.sequence_number, self.sequence_number);
    }

    /// A header that is encoded into a buffer of twenty bytes or more is the
    /// header that decoding the buffer gives, whatever the buffer held.
    pub proof fn lemma_round_trip(self, before: Seq<u8>)
        requires
            before.len() >= VIDEO_PACKET_HEADER_LENGTH,
        ensures
            Self::decoded(self.encoded_over(before)) == Ok::<Self, PacketDecodeError>(self),
    {
        self.lemma_decode_of_encode(before.skip(VIDEO_PACKET_HEADER_LENGTH as int));
    }

    /// Encoding a decoded header gives back the twenty bytes that it was
    /// decoded from: no two headers share an encoding, and every twenty bytes
    /// are the encoding of some header.
    pub proof fn lemma_encode_of_decode(bytes: Seq<u8>)
        requires
            bytes.len() >= VIDEO_PACKET_HEADER_LENGTH,
        ensures
            Self::from_wire(bytes).wire_bytes() == bytes.subrange(
                0,
                VIDEO_PACKET_HEADER_LENGTH as int,
            ),
    {
        let header = Self::from_wire(bytes);
        lemma_radix_values();
        lemma_be_value_bound(bytes.subrange(0, 4));
        lemma_be_value_bound(bytes.subrange(4, 12));
        lemma_be_value_bound(bytes.subrange(12, 16));
        lemma_be_value_bound(bytes.subrange(16, 18));
        lemma_be_value_bound(bytes.subrange(18, 20));
        lemma_be_bytes_of_value(bytes.subrange(0, 4));
        lemma_be_bytes_of_value(bytes.subrange(4, 12));
        lemma_be_bytes_of_value(bytes.subrange(12, 16));
        lemma_be_bytes_of_value(bytes.subrange(16, 18));
        lemma_be_bytes_of_value(bytes.subrange(18, 20));
        SequenceNumber::lemma_new_value(be_value(bytes.subrange(0, 4)) as u32);
        assert(header.wire_bytes() =~= bytes.subrange(0, VIDEO_PACKET_HEADER_LENGTH as int));
    }
}

} // verus!
