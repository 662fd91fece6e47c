//! The reassembler as a mathematical value, and what holds of it.
//!
//! [`ReassemblerView::push`] says what one packet does to a reassembler; the
//! lemmas say what follows: the bound on what is held, what becomes of
//! duplicates, and which packets are rejected.

use vstd::prelude::*;
use crate::assembly::{lemma_filled_all, lemma_filled_fresh, lemma_store, AssemblyView};
use crate::eviction::{
    evicted,
    lemma_evicted_keeps_newest,
    lemma_evicted_step,
    lemma_smallest,
    smallest,
};
use crate::packet::{VideoPacketHeader, VideoPacketView, VIDEO_PACKET_HEADER_LENGTH};
use crate::reassembler::ReassemblyError;

verus! {

/// A reassembled frame as a mathematical value.
pub struct ReassembledFrameView {
    pub frame_identifier: u32,
    pub timestamp_nanos: u64,
    pub payload: Seq<u8>,
}

/// `copies` times the same packet.
pub open spec fn repeated(packet: VideoPacketView, copies: nat) -> Seq<VideoPacketView> {
    Seq::new(copies, |index: int| packet)
}

/// A reassembler as a mathematical value: its bound and its assemblies, by
/// frame identifier.
pub struct ReassemblerView {
    pub max_in_flight_frames: usize,
    pub frames: Map<u32, AssemblyView>,
}

impl ReassemblerView {
    /// What holds of a reassembler between calls: it holds no more
    /// assemblies than its bound allows, and each of them has some of its
    /// chunks and waits for the others.
    pub open spec fn wf(self) -> bool {
        &&& self.frames.dom().finite()
        &&& self.frames.len() <= self.max_in_flight_frames
        &&& forall|key: u32| #[trigger]
            self.frames.contains_key(key) ==> self.frames[key].in_flight()
    }

    /// How many frames are in flight.
    pub open spec fn in_flight(self) -> nat {
        self.frames.len()
    }

    /// The reassembler with the assemblies `frames`.
    pub open spec fn with_frames(self, frames: Map<u32, AssemblyView>) -> Self {
        ReassemblerView { max_in_flight_frames: self.max_in_flight_frames, frames }
    }

    /// Drops the assembly with the smallest frame identifier for as long as
    /// more assemblies are held than the bound allows.
    pub open spec fn evict(self) -> Self {
        self.with_frames(evicted(self.frames, self.max_in_flight_frames as nat))
    }

    /// Why a packet is rejected, if it is: the checks in the order in which
    /// they are made.
    pub open spec fn rejection(self, header: VideoPacketHeader) -> Option<ReassemblyError> {
        if header.chunk_index >= header.chunks_total {
            Some(ReassemblyError::InvalidChunkIndex)
        } else if self.frames.contains_key(header.frame_identifier)
            && self.frames[header.frame_identifier].chunks_total != header.chunks_total {
            Some(ReassemblyError::InconsistentChunkCount)
        } else {
            None
        }
    }

    /// The assembly that a packet goes into: the one in flight for its frame,
    /// or else a fresh one with the packet's timestamp.
    pub open spec fn held(self, header: VideoPacketHeader) -> AssemblyView {
        if self.frames.contains_key(header.frame_identifier) {
            self.frames[header.frame_identifier]
        } else {
            AssemblyView::fresh(header.timestamp_nanos, header.chunks_total)
        }
    }

    /// That assembly once the packet's chunk is in it.
    pub open spec fn stored(self, packet: VideoPacketView) -> AssemblyView {
        self.held(packet.header).store(packet.header.chunk_index as int, packet.payload)
    }

    /// What one packet does: the reassembler afterwards, and what is handed
    /// back. A packet that is rejected leaves the reassembler as it was. One
    /// that completes its frame takes the assembly out and hands the frame
    /// back; any other is stored, and then what is over the bound is evicted.
    pub open spec fn push(self, packet: VideoPacketView) -> (
        Self,
        Result<Option<ReassembledFrameView>, ReassemblyError>,
    ) {
        let key = packet.header.frame_identifier;
        match self.rejection(packet.header) {
            Some(error) => (self, Err(error)),
            None => {
                let after = self.stored(packet);
                if after.is_complete() {
                    (
                        self.with_frames(self.frames.remove(key)),
                        Ok(
                            Some(
                                ReassembledFrameView {
                                    frame_identifier: key,
                                    timestamp_nanos: after.timestamp_nanos,
                                    payload: after.payload(),
                                },
                            ),
                        ),
                    )
                } else {
                    (self.with_frames(self.frames.insert(key, after)).evict(), Ok(None))
                }
            },
        }
    }

    /// What one datagram does: a datagram too short to hold a header is
    /// dropped, and so is a packet that is rejected; any other is pushed.
    pub open spec fn receive(self, datagram: Seq<u8>) -> (Self, Option<ReassembledFrameView>) {
        if datagram.len() < VIDEO_PACKET_HEADER_LENGTH {
            (self, None)
        } else {
            let pushed = self.push(VideoPacketView::from_wire(datagram));
            (
                pushed.0,
                match pushed.1 {
                    Ok(frame) => frame,
                    Err(_) => None,
                },
            )
        }
    }

    /// Whether a packet for frame `key` that does not complete its frame
    /// leaves an assembly behind: the frame is in flight already, or there is
    /// room for one more, or an older frame is there to be evicted in its
    /// place.
    pub open spec fn admits(self, key: u32) -> bool {
        ||| self.frames.contains_key(key)
        ||| self.frames.len() < self.max_in_flight_frames
        ||| exists|other: u32| self.frames.contains_key(other) && other < key
    }

    /// The state after `packets` have been pushed one after the other.
    pub open spec fn push_all(self, packets: Seq<VideoPacketView>) -> Self
        decreases packets.len(),
    {
        if packets.len() == 0 {
            self
        } else {
            self.push_all(packets.drop_last()).push(packets.last()).0
        }
    }

    /// What the push of `packets[index]` hands back when `packets` are
    /// pushed one after the other.
    pub open spec fn result_at(self, packets: Seq<VideoPacketView>, index: int) -> Result<
        Option<ReassembledFrameView>,
        ReassemblyError,
    >
        recommends
            0 <= index < packets.len(),
    {
        self.push_all(packets.subrange(0, index)).push(packets[index]).1
    }

    /// A packet that comes as the datagram that carries it does what the
    /// packet does, but that a rejection is not reported.
    pub proof fn lemma_receive_encoded(self, packet: VideoPacketView)
        ensures
            self.receive(packet.wire_bytes()).0 == self.push(packet).0,
            self.receive(packet.wire_bytes()).1 == match self.push(packet).1 {
                Ok(frame) => frame,
                Err(_) => None,
            },
    {
        packet.lemma_decode_of_encode();
    }

    /// A push keeps the reassembler within its bound, leaves no complete
    /// frame in it, and does not touch the bound.
    pub proof fn lemma_push_wf(self, packet: VideoPacketView)
        requires
            self.wf(),
        ensures
            self.push(packet).0.wf(),
            self.push(packet).0.max_in_flight_frames == self.max_in_flight_frames,
            self.push(packet).0.in_flight() <= self.max_in_flight_frames,
    {
        let key = packet.header.frame_identifier;
        if self.rejection(packet.header) is None {
            let after = self.stored(packet);
            lemma_filled_fresh(packet.header.timestamp_nanos, packet.header.chunks_total);
            assert(self.held(packet.header).wf());
            lemma_store(self.held(packet.header), packet.header.chunk_index as int, packet.payload);
            lemma_filled_all(after.chunks);
            if !after.is_complete() {
                let grown = self.frames.insert(key, after);
                lemma_evicted_keeps_newest(grown, self.max_in_flight_frames as nat);
            }
        }
    }

    /// However many packets are pushed, and whichever, the reassembler stays
    /// within its bound.
    pub proof fn lemma_push_all_wf(self, packets: Seq<VideoPacketView>)
        requires
            self.wf(),
        ensures
            self.push_all(packets).wf(),
            self.push_all(packets).max_in_flight_frames == self.max_in_flight_frames,
            self.push_all(packets).in_flight() <= self.max_in_flight_frames,
        decreases packets.len(),
    {
        if packets.len() > 0 {
            self.lemma_push_all_wf(packets.drop_last());
            self.push_all(packets.drop_last()).lemma_push_wf(packets.last());
        }
    }

    /// A packet whose chunk index is not below its chunk total is rejected,
    /// and no assembly is made or changed.
    pub proof fn lemma_invalid_index_is_rejected(self, packet: VideoPacketView)
        requires
            packet.header.chunk_index >= packet.header.chunks_total,
        ensures
            self.push(packet) == (
                self,
                Err::<Option<ReassembledFrameView>, ReassemblyError>(
                    ReassemblyError::InvalidChunkIndex,
                ),
            ),
    {
    }

    /// A packet that states another chunk total than the assembly in flight
    /// for its frame is rejected, and the assembly stays as it is.
    pub proof fn lemma_other_total_is_rejected(self, packet: VideoPacketView)
        requires
            packet.header.names_a_chunk(),
            self.frames.contains_key(packet.header.frame_identifier),
            self.frames[packet.header.frame_identifier].chunks_total
                != packet.header.chunks_total,
        ensures
            self.push(packet) == (
                self,
                Err::<Option<ReassembledFrameView>, ReassemblyError>(
                    ReassemblyError::InconsistentChunkCount,
                ),
            ),
    {
    }

    /// A packet that is accepted, does not complete its frame and is
    /// admitted leaves its assembly in flight, with its chunk in it, under
    /// the chunk total that the packet states.
    pub proof fn lemma_push_stores(self, packet: VideoPacketView)
        requires
            self.wf(),
            self.rejection(packet.header) is None,
            !self.stored(packet).is_complete(),
            self.admits(packet.header.frame_identifier),
        ensures
            self.push(packet).1 == Ok::<Option<ReassembledFrameView>, ReassemblyError>(None),
            self.push(packet).0.frames.contains_key(packet.header.frame_identifier),
            self.push(packet).0.frames[packet.header.frame_identifier] == self.stored(packet),
            self.stored(packet).chunks_total == packet.header.chunks_total,
            forall|other: u32| #[trigger]
                self.push(packet).0.frames.contains_key(other) ==> other
                    == packet.header.frame_identifier || (self.frames.contains_key(other)
                    && self.push(packet).0.frames[other] == self.frames[other]),
    {
        let key = packet.header.frame_identifier;
        let limit = self.max_in_flight_frames as nat;
        let grown = self.frames.insert(key, self.stored(packet));
        lemma_evicted_step(grown, limit);
        lemma_evicted_keeps_newest(grown, limit);
        if grown.len() > limit {
            assert(!self.frames.contains_key(key));
            assert(self.frames.len() == limit);
            let other = choose|other: u32| self.frames.contains_key(other) && other < key;
            assert(grown.contains_key(other));
            lemma_smallest(grown.dom(), other);
            let oldest = smallest(grown.dom());
            lemma_evicted_step(grown.remove(oldest), limit);
        }
    }

    /// A packet that arrives again changes nothing: the second push hands
    /// back what the first did and leaves the reassembler as the first left
    /// it. This holds of every packet but the one that completes a frame of
    /// several chunks, which opens a new assembly when it comes again.
    pub proof fn lemma_duplicate_changes_nothing(self, packet: VideoPacketView)
        requires
            self.wf(),
            self.push(packet).1 matches Ok(Some(_)) ==> packet.header.chunks_total == 1,
        ensures
            self.push(packet).0.push(packet) == (self.push(packet).0, self.push(packet).1),
    {
        let key = packet.header.frame_identifier;
        let index = packet.header.chunk_index as int;
        let limit = self.max_in_flight_frames as nat;
        let once = self.push(packet).0;
        self.lemma_push_wf(packet);
        if self.rejection(packet.header) is None {
            let after = self.stored(packet);
            lemma_filled_fresh(packet.header.timestamp_nanos, packet.header.chunks_total);
            lemma_store(self.held(packet.header), index, packet.payload);
            if after.is_complete() {
                // A frame of one chunk: there was no assembly, and there is none.
                assert(once.frames =~= self.frames);
                assert(once.frames.remove(key) =~= once.frames);
            } else {
                let grown = self.frames.insert(key, after);
                lemma_evicted_step(grown, limit);
                lemma_evicted_keeps_newest(grown, limit);
                if once.frames.contains_key(key) {
                    // The chunk is in its slot, and the slot keeps it.
                    assert(once.stored(packet) == after);
                    assert(once.frames.insert(key, after) =~= once.frames);
                    lemma_evicted_step(once.frames, limit);
                } else {
                    // The assembly was evicted as soon as it was made.
                    lemma_smallest(grown.dom(), key);
                    lemma_evicted_step(grown.remove(smallest(grown.dom())), limit);
                    assert(grown.remove(key) =~= self.frames);
                    assert(once == self);
                }
            }
        }
    }

    /// The same packet pushed any number of times, one copy after the
    /// other, leaves what one push leaves, and every push hands back what
    /// the first did.
    pub proof fn lemma_duplicates_change_nothing(self, packet: VideoPacketView, copies: nat)
        requires
            self.wf(),
            copies >= 1,
            self.push(packet).1 matches Ok(Some(_)) ==> packet.header.chunks_total == 1,
        ensures
            self.push_all(repeated(packet, copies)) == self.push(packet).0,
            forall|index: int|
                0 <= index < copies ==> #[trigger] self.result_at(repeated(packet, copies), index)
                    == self.push(packet).1,
        decreases copies,
    {
        let all = repeated(packet, copies);
        let fewer = repeated(packet, (copies - 1) as nat);
        assert(all.drop_last() =~= fewer);
        assert(all.last() == packet);
        if copies == 1 {
            assert(self.push_all(fewer) == self);
        } else {
            self.lemma_duplicates_change_nothing(packet, (copies - 1) as nat);
            self.lemma_duplicate_changes_nothing(packet);
        }
        assert forall|index: int| 0 <= index < copies implies #[trigger] self.result_at(all, index)
            == self.push(packet).1 by {
            if index == 0 {
                assert(all.subrange(0, 0) =~= Seq::empty());
            } else if index == copies - 1 {
                assert(all.subrange(0, index) =~= fewer);
            } else {
                assert(all.subrange(0, index) =~= fewer.subrange(0, index));
                assert(self.result_at(fewer, index) == self.push(packet).1);
            }
        }
    }

    /// Once a packet has been accepted and its frame is in flight, a packet
    /// that states another chunk total for that frame is rejected, and the
    /// assembly stays as it is.
    pub proof fn lemma_total_is_settled(self, first: VideoPacketView, later: VideoPacketView)
        requires
            self.wf(),
            self.push(first).1 == Ok::<Option<ReassembledFrameView>, ReassemblyError>(None),
            self.push(first).0.frames.contains_key(first.header.frame_identifier),
            later.header.frame_identifier == first.header.frame_identifier,
            later.header.names_a_chunk(),
            later.header.chunks_total != first.header.chunks_total,
        ensures
            self.push(first).0.push(later) == (
                self.push(first).0,
                Err::<Option<ReassembledFrameView>, ReassemblyError>(
                    ReassemblyError::InconsistentChunkCount,
                ),
            ),
    {
        let key = first.header.frame_identifier;
        let grown = self.frames.insert(key, self.stored(first));
        lemma_evicted_keeps_newest(grown, self.max_in_flight_frames as nat);
        lemma_filled_fresh(first.header.timestamp_nanos, first.header.chunks_total);
        lemma_store(self.held(first.header), first.header.chunk_index as int, first.payload);
        self.push(first).0.lemma_other_total_is_rejected(later);
    }

    /// A frame that is in flight before and after a push keeps its chunk
    /// total and the timestamp of the packet that arrived first.
    pub proof fn lemma_total_and_timestamp_stay(self, packet: VideoPacketView, key: u32)
        requires
            self.wf(),
            self.frames.contains_key(key),
            self.push(packet).0.frames.contains_key(key),
        ensures
            self.push(packet).0.frames[key].chunks_total == self.frames[key].chunks_total,
            self.push(packet).0.frames[key].timestamp_nanos == self.frames[key].timestamp_nanos,
    {
        if self.rejection(packet.header) is None {
            let grown = self.frames.insert(packet.header.frame_identifier, self.stored(packet));
            lemma_evicted_keeps_newest(grown, self.max_in_flight_frames as nat);
            if key == packet.header.frame_identifier {
                lemma_store(
                    self.held(packet.header),
                    packet.header.chunk_index as int,
                    packet.payload,
                );
            }
        }
    }
}

} // verus!
