//! Cuts an encoded frame into packets of bounded payload.

use vstd::prelude::*;
use vstd::slice::{slice_subrange, slice_to_vec};
use crate::chunks::{
    chunk,
    chunk_count,
    chunks,
    concat,
    lemma_chunk_count_is_ceiling,
    lemma_chunk_extent,
    lemma_chunk_lengths,
    lemma_concat_of_chunks,
};
use crate::packet::{VideoPacket, VideoPacketHeader, VideoPacketView};
use crate::packet_codec::encode_packet;
use crate::sequence::SequenceNumber;

verus! {

#[derive(Debug, Clone, Copy, PartialEq, Eq, Structural)]
pub struct PacketizerConfig {
    /// The most payload bytes that one packet may carry; the header is not
    /// counted.
    pub max_payload_bytes: usize,
}

#[derive(Debug, Clone, Copy, PartialEq, Eq, Structural)]
pub enum PacketizerError {
    EmptyPayload,
    PayloadTooLarge,
}

impl PacketizerError {
    /// What the error says of itself.
    pub fn message(&self) -> (text: &'static str)
        ensures
            text@ == match self {
                PacketizerError::EmptyPayload => "packetizer payload is empty"@,
                PacketizerError::PayloadTooLarge => "packetizer payload too large"@,
            },
    {
        match self {
            PacketizerError::EmptyPayload => "packetizer payload is empty",
            PacketizerError::PayloadTooLarge => "packetizer payload too large",
        }
    }
}

/// The sender's side of the framing: it owns the sequence counter.
pub struct Packetizer {
    config: PacketizerConfig,
    next_sequence_number: SequenceNumber,
}

/// A packetizer as a mathematical value.
pub struct PacketizerView {
    pub config: PacketizerConfig,
    pub next_sequence_number: SequenceNumber,
}

impl View for Packetizer {
    type V = PacketizerView;

    closed spec fn view(&self) -> PacketizerView {
        PacketizerView { config: self.config, next_sequence_number: self.next_sequence_number }
    }
}

/// The most chunks that a frame may be cut into: what a 16-bit count holds.
pub const MAX_CHUNKS: usize = 0xffff;

/// The views of a run of packets, in the same order.
pub open spec fn packet_views(packets: Seq<VideoPacket>) -> Seq<VideoPacketView> {
    packets.map_values(|packet: VideoPacket| packet@)
}

/// The payloads of a run of packets, in the same order.
pub open spec fn payloads(packets: Seq<VideoPacketView>) -> Seq<Seq<u8>> {
    packets.map_values(|packet: VideoPacketView| packet.payload)
}

impl PacketizerView {
    /// The packet that carries chunk `index` of the frame.
    pub open spec fn packet(
        self,
        frame_identifier: u32,
        timestamp_nanos: u64,
        payload: Seq<u8>,
        index: nat,
    ) -> VideoPacketView {
        VideoPacketView {
            header: VideoPacketHeader {
                sequence_number: SequenceNumber::spec_new(
                    self.next_sequence_number.advanced(index),
                ),
                timestamp_nanos,
                frame_identifier,
                chunk_index: index as u16,
                chunks_total: chunk_count(
                    payload.len(),
                    self.config.max_payload_bytes as nat,
                ) as u16,
            },
            payload: chunk(payload, self.config.max_payload_bytes as nat, index),
        }
    }

    /// The packets of one frame, in the order in which they are emitted.
    pub open spec fn packets(
        self,
        frame_identifier: u32,
        timestamp_nanos: u64,
        payload: Seq<u8>,
    ) -> Seq<VideoPacketView> {
        Seq::new(
            chunk_count(payload.len(), self.config.max_payload_bytes as nat),
            |index: int| self.packet(frame_identifier, timestamp_nanos, payload, index as nat),
        )
    }

    /// Why a frame is refused, if it is: the checks in the order in which
    /// they are made.
    pub open spec fn refusal(self, payload: Seq<u8>) -> Option<PacketizerError> {
        if payload.len() == 0 {
            Some(PacketizerError::EmptyPayload)
        } else if self.config.max_payload_bytes == 0 {
            Some(PacketizerError::PayloadTooLarge)
        } else if chunk_count(payload.len(), self.config.max_payload_bytes as nat) > MAX_CHUNKS {
            Some(PacketizerError::PayloadTooLarge)
        } else {
            None
        }
    }

    /// The packetizer after it has emitted `count` packets.
    pub open spec fn after(self, count: nat) -> Self {
        PacketizerView {
            config: self.config,
            next_sequence_number: SequenceNumber::spec_new(
                self.next_sequence_number.advanced(count),
            ),
        }
    }

    /// What one call does: the packetizer afterwards, and what is returned.
    /// A refused frame leaves the packetizer as it was.
    pub open spec fn packetize(
        self,
        frame_identifier: u32,
        timestamp_nanos: u64,
        payload: Seq<u8>,
    ) -> (Self, Result<Seq<VideoPacketView>, PacketizerError>) {
        match self.refusal(payload) {
            Some(error) => (self, Err(error)),
            None => (
                self.after(chunk_count(payload.len(), self.config.max_payload_bytes as nat)),
                Ok(self.packets(frame_identifier, timestamp_nanos, payload)),
            ),
        }
    }
}

impl PacketizerView {
    /// Every packet of a frame names its own position, carries the frame's
    /// identifier and timestamp, and states the same total: the number of
    /// packets, which is the payload length over the limit, rounded up.
    pub proof fn lemma_headers(
        self,
        frame_identifier: u32,
        timestamp_nanos: u64,
        payload: Seq<u8>,
        index: int,
    )
        requires
            self.refusal(payload) is None,
            0 <= index < self.packets(frame_identifier, timestamp_nanos, payload).len(),
        ensures
            ({
                let packets = self.packets(frame_identifier, timestamp_nanos, payload);
                let header = packets[index].header;
                &&& 1 <= packets.len() <= MAX_CHUNKS
                &&& packets.len() == chunk_count(payload.len(), self.config.max_payload_bytes as nat)
                &&& header.chunks_total == packets.len()
                &&& header.chunk_index == index
                &&& header.frame_identifier == frame_identifier
                &&& header.timestamp_nanos == timestamp_nanos
                &&& header.names_a_chunk()
            }),
    {
        lemma_chunk_count_is_ceiling(payload.len(), self.config.max_payload_bytes as nat);
    }

    /// Every packet but the last carries exactly the limit; the last carries
    /// at least one byte and at most the limit.
    pub proof fn lemma_payload_lengths(
        self,
        frame_identifier: u32,
        timestamp_nanos: u64,
        payload: Seq<u8>,
        index: int,
    )
        requires
            self.refusal(payload) is None,
            0 <= index < self.packets(frame_identifier, timestamp_nanos, payload).len(),
        ensures
            ({
                let packets = self.packets(frame_identifier, timestamp_nanos, payload);
                &&& 1 <= packets[index].payload.len() <= self.config.max_payload_bytes
                &&& index + 1 < packets.len() ==> packets[index].payload.len()
                    == self.config.max_payload_bytes
            }),
    {
        lemma_chunk_lengths(payload, self.config.max_payload_bytes as nat, index as nat);
    }

    /// The payloads of the packets of a frame, put together in the order of
    /// emission, are the frame's payload.
    pub proof fn lemma_payloads_concatenate(
        self,
        frame_identifier: u32,
        timestamp_nanos: u64,
        payload: Seq<u8>,
    )
        requires
            self.refusal(payload) is None,
        ensures
            concat(payloads(self.packets(frame_identifier, timestamp_nanos, payload))) == payload,
    {
        let limit = self.config.max_payload_bytes as nat;
        lemma_concat_of_chunks(payload, limit);
        assert(payloads(self.packets(frame_identifier, timestamp_nanos, payload)) =~= chunks(
            payload,
            limit,
        ));
    }

    /// The first packet of a frame takes the packetizer's counter, each later
    /// packet the wrapping successor of the one before it, and the counter is
    /// left at the successor of the last: over any run of calls the sequence
    /// numbers go up by one at a time, modulo 2^32.
    pub proof fn lemma_sequence_numbers(
        self,
        frame_identifier: u32,
        timestamp_nanos: u64,
        payload: Seq<u8>,
    )
        requires
            self.refusal(payload) is None,
        ensures
            ({
                let packets = self.packets(frame_identifier, timestamp_nanos, payload);
                let after = self.packetize(frame_identifier, timestamp_nanos, payload).0;
                &&& packets.len() >= 1
                &&& packets[0].header.sequence_number == self.next_sequence_number
                &&& forall|index: int|
                    0 < index < packets.len() ==> (#[trigger] packets[index]).header.sequence_number@
                        == packets[index - 1].header.sequence_number.advanced(1)
                &&& after.next_sequence_number@ == packets.last().header.sequence_number.advanced(1)
            }),
    {
        let start = self.next_sequence_number;
        let packets = self.packets(frame_identifier, timestamp_nanos, payload);
        let count = packets.len();
        lemma_chunk_count_is_ceiling(payload.len(), self.config.max_payload_bytes as nat);
        assert(count >= 1);
        assert(packets[0].header.sequence_number == self.next_sequence_number) by {
            SequenceNumber::lemma_new_value(start.advanced(0));
            SequenceNumber::lemma_value_determines(start, packets[0].header.sequence_number);
        }
        assert forall|index: int| 0 < index < count implies (
        #[trigger] packets[index]).header.sequence_number@ == packets[index
            - 1].header.sequence_number.advanced(1) by {
            let before = (index - 1) as nat;
            SequenceNumber::lemma_new_value(start.advanced(index as nat));
            start.lemma_advanced_twice(before, 1);
            SequenceNumber::lemma_value_determines(
                packets[index - 1].header.sequence_number,
                SequenceNumber::spec_new(start.advanced(before)),
            );
        }
        assert(self.packetize(frame_identifier, timestamp_nanos, payload).0.next_sequence_number@
            == packets.last().header.sequence_number.advanced(1)) by {
            let before = (count - 1) as nat;
            SequenceNumber::lemma_new_value(start.advanced(count));
            start.lemma_advanced_twice(before, 1);
        }
    }
}

impl PacketizerView {
    /// Sequence numbers run on from one frame to the next: the first packet
    /// of a frame follows the last packet of the frame before it.
    pub proof fn lemma_sequence_continues(
        self,
        first_identifier: u32,
        first_timestamp: u64,
        first_payload: Seq<u8>,
        second_identifier: u32,
        second_timestamp: u64,
        second_payload: Seq<u8>,
    )
        requires
            self.refusal(first_payload) is None,
            self.refusal(second_payload) is None,
        ensures
            ({
                let first = self.packets(first_identifier, first_timestamp, first_payload);
                let between = self.packetize(first_identifier, first_timestamp, first_payload).0;
                let second = between.packets(second_identifier, second_timestamp, second_payload);
                &&& first.len() >= 1
                &&& second.len() >= 1
                &&& second[0].header.sequence_number@
                    == first.last().header.sequence_number.advanced(1)
            }),
    {
        let between = self.packetize(first_identifier, first_timestamp, first_payload).0;
        self.lemma_sequence_numbers(first_identifier, first_timestamp, first_payload);
        between.lemma_sequence_numbers(second_identifier, second_timestamp, second_payload);
    }
}

impl Packetizer {
    /// A packetizer that numbers its first packet `initial_sequence_number`.
    pub fn new(config: PacketizerConfig, initial_sequence_number: SequenceNumber) -> (packetizer:
        Self)
        ensures
            packetizer@ == (PacketizerView {
                config,
                next_sequence_number: initial_sequence_number,
            }),
    {
        Self { config, next_sequence_number: initial_sequence_number }
    }

    /// Cuts `payload` into packets of at most the configured size, in
    /// ascending chunk order, numbering them from the packetizer's counter.
    ///
    /// An empty payload, a limit of zero, and a payload that would need more
    /// than [`MAX_CHUNKS`] chunks are refused, and the counter stays where it
    /// was.
    pub fn packetize(
        &mut self,
        frame_identifier: u32,
        timestamp_nanos: u64,
        payload: &[u8],
    ) -> (result: Result<Vec<VideoPacket>, PacketizerError>)
        ensures
            final(self)@ == old(self)@.packetize(frame_identifier, timestamp_nanos, payload@).0,
            match old(self)@.packetize(frame_identifier, timestamp_nanos, payload@).1 {
                Ok(packets) => result is Ok && packet_views(result->Ok_0@) == packets,
                Err(error) => result is Err && result->Err_0 == error,
            },
    {
        let length = payload.len();
        let limit = self.config.max_payload_bytes;
        if length == 0 {
            return Err(PacketizerError::EmptyPayload);
        }
        if limit == 0 {
            return Err(PacketizerError::PayloadTooLarge);
        }
        proof {
            lemma_chunk_count_is_ceiling(length as nat, limit as nat);
        }
        let chunks_total = (length - 1) / limit + 1;
        if chunks_total > MAX_CHUNKS {
            return Err(PacketizerError::PayloadTooLarge);
        }
        let ghost start = self@;
        let ghost expected = start.packets(frame_identifier, timestamp_nanos, payload@);
        let mut packets: Vec<VideoPacket> = Vec::new();
        let mut chunk_index: usize = 0;
        while chunk_index < chunks_total
            invariant
                chunk_index <= chunks_total <= MAX_CHUNKS,
                limit > 0,
                limit == start.config.max_payload_bytes,
                length == payload@.len(),
                chunks_total == chunk_count(length as nat, limit as nat),
                expected == start.packets(frame_identifier, timestamp_nanos, payload@),
                self@.config == start.config,
                self@.next_sequence_number@ == start.next_sequence_number.advanced(
                    chunk_index as nat,
                ),
                packets@.len() == chunk_index,
                forall|i: int| 0 <= i < chunk_index ==> (#[trigger] packets@[i])@ == expected[i],
            decreases chunks_total - chunk_index,
        {
            proof {
                lemma_chunk_extent(length as nat, limit as nat, chunk_index as nat);
            }
            let offset = chunk_index * limit;
            let end = if length - offset > limit {
                offset + limit
            } else {
                length
            };
            let header = VideoPacketHeader {
                sequence_number: self.next_sequence_number,
                timestamp_nanos,
                frame_identifier,
                chunk_index: chunk_index as u16,
                chunks_total: chunks_total as u16,
            };
            self.next_sequence_number = self.next_sequence_number.next();
            let chunk = slice_to_vec(slice_subrange(payload, offset, end));
            proof {
                SequenceNumber::lemma_value_determines(
                    header.sequence_number,
                    SequenceNumber::spec_new(start.next_sequence_number.advanced(chunk_index as nat)),
                );
                SequenceNumber::lemma_new_value(
                    start.next_sequence_number.advanced(chunk_index as nat),
                );
            }
            packets.push(VideoPacket { header, payload: chunk });
            chunk_index = chunk_index + 1;
        }
        proof {
            SequenceNumber::lemma_value_determines(
                self.next_sequence_number,
                SequenceNumber::spec_new(start.next_sequence_number.advanced(chunks_total as nat)),
            );
            SequenceNumber::lemma_new_value(
                start.next_sequence_number.advanced(chunks_total as nat),
            );
            assert(packet_views(packets@) =~= expected);
        }
        Ok(packets)
    }

    /// Cuts `payload` into packets as [`Packetizer::packetize`] does and lays
    /// each out as the datagram that carries it, ready to be sent in order.
    pub fn datagrams(
        &mut self,
        frame_identifier: u32,
        timestamp_nanos: u64,
        payload: &[u8],
    ) -> (result: Result<Vec<Vec<u8>>, PacketizerError>)
        ensures
            final(self)@ == old(self)@.packetize(frame_identifier, timestamp_nanos, payload@).0,
            match old(self)@.packetize(frame_identifier, timestamp_nanos, payload@).1 {
                Ok(packets) => result is Ok && result->Ok_0@.len() == packets.len() && forall|
                    index: int,
                |
                    0 <= index < packets.len() ==> (#[trigger] result->Ok_0@[index])@
                        == packets[index].wire_bytes(),
                Err(error) => result is Err && result->Err_0 == error,
            },
    {
        let packets = match self.packetize(frame_identifier, timestamp_nanos, payload) {
            Ok(packets) => packets,
            Err(error) => {
                return Err(error);
            },
        };
        let mut datagrams: Vec<Vec<u8>> = Vec::new();
        let mut index: usize = 0;
        while index < packets.len()
            invariant
                index <= packets@.len(),
                datagrams@.len() == index,
                forall|done: int|
                    0 <= done < index ==> (#[trigger] datagrams@[done])@
                        == packets@[done]@.wire_bytes(),
            decreases packets@.len() - index,
        {
            datagrams.push(encode_packet(&packets[index]));
            index = index + 1;
        }
        proof {
            let expected = old(self)@.packets(frame_identifier, timestamp_nanos, payload@);
            assert forall|done: int| 0 <= done < expected.len() implies (
            #[trigger] datagrams@[done])@ == expected[done].wire_bytes() by {
                assert(packet_views(packets@)[done] == packets@[done]@);
            }
        }
        Ok(datagrams)
    }
}

} // verus!
