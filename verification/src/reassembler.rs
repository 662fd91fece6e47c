//! Puts frames back together from packets that arrive in any order.
//!
//! The reassembler keeps one assembly for every frame of which some but not
//! all chunks have arrived, and never more of them than it was made for:
//! when one too many is in flight, the one with the smallest frame identifier
//! is dropped.

use vstd::prelude::*;
use vstd::std_specs::btree::{
    axiom_increasing_seq_meaning,
    axiom_spec_keys_iter,
    increasing_seq,
    spec_keys_iter,
};
use vstd::std_specs::cmp::OrdSpec;
use vstd::std_specs::iter::IteratorSpec;
use std::collections::BTreeMap;
use crate::assembly::{
    lemma_filled_all,
    lemma_filled_fresh,
    lemma_store,
    slot_bytes,
    AssemblyView,
};
use crate::chunks::concat;
use crate::eviction::{
    evicted,
    lemma_evicted_keeps_newest,
    lemma_evicted_maps,
    lemma_evicted_step,
    lemma_smallest,
    smallest,
};
use crate::packet::{bytes_equal, VideoPacket};
use crate::packet_codec::decode_packet;
use crate::reassembly::{ReassembledFrameView, ReassemblerView};

verus! {

/// A frame put back together: the chunks' payloads in ascending index order.
#[derive(Debug, Eq)]
pub struct ReassembledFrame {
    pub frame_identifier: u32,
    /// The timestamp of the packet of this frame that arrived first.
    pub timestamp_nanos: u64,
    pub payload: Vec<u8>,
}

impl View for ReassembledFrame {
    type V = ReassembledFrameView;

    open spec fn view(&self) -> ReassembledFrameView {
        ReassembledFrameView {
            frame_identifier: self.frame_identifier,
            timestamp_nanos: self.timestamp_nanos,
            payload: self.payload@,
        }
    }
}

impl Clone for ReassembledFrame {
    fn clone(&self) -> (copy: Self)
        ensures
            copy@ == self@,
    {
        ReassembledFrame {
            frame_identifier: self.frame_identifier,
            timestamp_nanos: self.timestamp_nanos,
            payload: self.payload.clone(),
        }
    }
}

impl PartialEq for ReassembledFrame {
    /// Frames are equal when identifier, timestamp and payload are.
    fn eq(&self, other: &Self) -> (equal: bool)
    {
        self.frame_identifier == other.frame_identifier && self.timestamp_nanos
            == other.timestamp_nanos && bytes_equal(
            self.payload.as_slice(),
            other.payload.as_slice(),
        )
    }
}

impl vstd::std_specs::cmp::PartialEqSpecImpl for ReassembledFrame {
    open spec fn obeys_eq_spec() -> bool {
        true
    }

    open spec fn eq_spec(&self, other: &Self) -> bool {
        self@ == other@
    }
}

#[derive(Debug, Clone, Copy, PartialEq, Eq, Structural)]
pub enum ReassemblyError {
    InvalidChunkIndex,
    InconsistentChunkCount,
}

/// The slot as a mathematical value.
pub open spec fn slot_view(slot: Option<Vec<u8>>) -> Option<Seq<u8>> {
    match slot {
        Some(bytes) => Some(bytes@),
        None => None,
    }
}

#[derive(Debug)]
struct FrameAssembly {
    timestamp_nanos: u64,
    chunks_total: u16,
    received_count: u16,
    chunks: Vec<Option<Vec<u8>>>,
}

impl View for FrameAssembly {
    type V = AssemblyView;

    closed spec fn view(&self) -> AssemblyView {
        AssemblyView {
            timestamp_nanos: self.timestamp_nanos,
            chunks_total: self.chunks_total,
            chunks: self.chunks@.map_values(|slot: Option<Vec<u8>>| slot_view(slot)),
        }
    }
}

impl Clone for FrameAssembly {
    fn clone(&self) -> (copy: Self)
        ensures
            copy@ == self@,
    {
        let mut chunks: Vec<Option<Vec<u8>>> = Vec::new();
        let mut index: usize = 0;
        while index < self.chunks.len()
            invariant
                index <= self.chunks@.len(),
                chunks@.len() == index,
                forall|done: int|
                    0 <= done < index ==> slot_view(#[trigger] chunks@[done]) == slot_view(
                        self.chunks@[done],
                    ),
            decreases self.chunks@.len() - index,
        {
            let slot = match &self.chunks[index] {
                Some(bytes) => Some(bytes.clone()),
                None => None,
            };
            chunks.push(slot);
            index = index + 1;
        }
        let copy = FrameAssembly {
            timestamp_nanos: self.timestamp_nanos,
            chunks_total: self.chunks_total,
            received_count: self.received_count,
            chunks,
        };
        proof {
            assert(copy@.chunks =~= self@.chunks);
        }
        copy
    }
}

impl FrameAssembly {
    /// One slot for each chunk, and the count is the number of filled slots.
    spec fn wf(&self) -> bool {
        &&& self@.wf()
        &&& self.received_count == self@.received_count()
    }

    /// A well-formed assembly that holds a chunk and still waits for one.
    #[verifier::opaque]
    spec fn in_flight(&self) -> bool {
        self.wf() && self@.in_flight()
    }

    fn new(timestamp_nanos: u64, chunks_total: u16) -> (assembly: Self)
        ensures
            assembly.wf(),
            assembly@ == AssemblyView::fresh(timestamp_nanos, chunks_total),
    {
        let mut chunks: Vec<Option<Vec<u8>>> = Vec::new();
        let mut made: u16 = 0;
        while made < chunks_total
            invariant
                made <= chunks_total,
                chunks@.len() == made,
                forall|index: int| 0 <= index < made ==> (#[trigger] chunks@[index]) is None,
            decreases chunks_total - made,
        {
            chunks.push(None);
            made = made + 1;
        }
        let assembly = FrameAssembly { timestamp_nanos, chunks_total, received_count: 0, chunks };
        proof {
            lemma_filled_fresh(timestamp_nanos, chunks_total);
            assert(assembly@.chunks =~= AssemblyView::fresh(timestamp_nanos, chunks_total).chunks);
        }
        assembly
    }

    /// Puts `payload` into slot `index` unless the slot is taken.
    fn store(&mut self, index: usize, payload: Vec<u8>)
        requires
            old(self).wf(),
            index < old(self)@.chunks_total,
        ensures
            final(self).wf(),
            final(self)@ == old(self)@.store(index as int, payload@),
            final(self)@.received_count() >= 1,
    {
        proof {
            lemma_store(self@, index as int, payload@);
            lemma_filled_all(self@.chunks);
        }
        if self.chunks[index].is_none() {
            let ghost before = self@;
            self.chunks[index] = Some(payload);
            self.received_count = self.received_count + 1;
            proof {
                assert(self@.chunks =~= before.chunks.update(index as int, Some(payload@)));
            }
        }
    }

    fn is_complete(&self) -> (complete: bool)
        requires
            self.wf(),
        ensures
            complete == self@.is_complete(),
    {
        self.received_count == self.chunks_total
    }

    /// The chunks in ascending index order, one after the other.
    fn payload(&self) -> (payload: Vec<u8>)
        ensures
            payload@ == self@.payload(),
    {
        let mut payload: Vec<u8> = Vec::new();
        let mut index: usize = 0;
        let ghost parts = self@.chunks.map_values(|slot: Option<Seq<u8>>| slot_bytes(slot));
        proof {
            assert(parts.subrange(0, 0) =~= Seq::empty());
        }
        while index < self.chunks.len()
            invariant
                index <= self.chunks@.len(),
                parts == self@.chunks.map_values(|slot: Option<Seq<u8>>| slot_bytes(slot)),
                payload@ == concat(parts.subrange(0, index as int)),
            decreases self.chunks@.len() - index,
        {
            proof {
                let taken = parts.subrange(0, index + 1);
                assert(taken.drop_last() =~= parts.subrange(0, index as int));
                assert(taken.last() == slot_bytes(slot_view(self.chunks@[index as int])));
            }
            let ghost before = payload@;
            match &self.chunks[index] {
                Some(bytes) => {
                    payload.extend_from_slice(bytes.as_slice());
                    proof {
                        assert(payload@ =~= before + bytes@);
                    }
                },
                None => {
                    proof {
                        assert(payload@ =~= before + Seq::<u8>::empty());
                    }
                },
            }
            index = index + 1;
        }
        proof {
            assert(parts.subrange(0, index as int) =~= parts);
        }
        payload
    }
}

/// The smallest key of `frames`, if there is one.
fn smallest_key(frames: &BTreeMap<u32, FrameAssembly>) -> (found: Option<u32>)
    ensures
        frames@.dom().is_empty() <==> found is None,
        found matches Some(key) ==> key == smallest(frames@.dom()) && frames@.contains_key(key),
{
    proof {
        axiom_spec_keys_iter(frames);
    }
    for key in keys: frames.keys()
        invariant
            keys.index() == 0,
            keys.seq() == spec_keys_iter(frames).remaining(),
            keys.seq().unref().to_set() == frames@.dom(),
            increasing_seq(keys.seq()),
    {
        let found = *key;
        proof {
            let sorted = keys.seq();
            axiom_increasing_seq_meaning(sorted);
            assert(sorted.unref()[0] == found);
            assert(sorted.unref().to_set().contains(found));
            assert forall|other: u32| frames@.dom().contains(other) implies found <= other by {
                assert(sorted.unref().to_set().contains(other));
                let place = choose|place: int|
                    0 <= place < sorted.unref().len() && sorted.unref()[place] == other;
                assert(sorted.unref()[place] == *sorted[place]);
                if place > 0 {
                    assert(OrdSpec::cmp_spec(&sorted[0], &sorted[place]) is Less);
                }
            }
            lemma_smallest(frames@.dom(), found);
        }
        return Some(found);
    }
    proof {
        let sorted = spec_keys_iter(frames).remaining();
        assert(sorted.len() == 0);
        assert(frames@.dom() =~= Set::empty());
    }
    None
}

/// The receiver's side of the framing.
#[derive(Debug)]
pub struct FrameReassembler {
    max_in_flight_frames: usize,
    frames: BTreeMap<u32, FrameAssembly>,
}

/// The assemblies of a map as mathematical values.
spec fn assembly_views(frames: Map<u32, FrameAssembly>) -> Map<u32, AssemblyView> {
    frames.map_values(|assembly: FrameAssembly| assembly@)
}

proof fn lemma_views_insert(frames: Map<u32, FrameAssembly>, key: u32, assembly: FrameAssembly)
    ensures
        assembly_views(frames.insert(key, assembly)) == assembly_views(frames).insert(
            key,
            assembly@,
        ),
{
    assert(assembly_views(frames.insert(key, assembly)) =~= assembly_views(frames).insert(
        key,
        assembly@,
    ));
}

proof fn lemma_views_remove(frames: Map<u32, FrameAssembly>, key: u32)
    ensures
        assembly_views(frames.remove(key)) == assembly_views(frames).remove(key),
        assembly_views(frames).dom() == frames.dom(),
{
    assert(assembly_views(frames.remove(key)) =~= assembly_views(frames).remove(key));
    assert(assembly_views(frames).dom() =~= frames.dom());
}

impl View for FrameReassembler {
    type V = ReassemblerView;

    closed spec fn view(&self) -> ReassemblerView {
        ReassemblerView {
            max_in_flight_frames: self.max_in_flight_frames,
            frames: assembly_views(self.frames@),
        }
    }
}

impl Clone for FrameReassembler {
    fn clone(&self) -> (copy: Self)
        ensures
            copy@ == self@,
    {
        proof {
            use_type_invariant(self);
        }
        FrameReassembler {
            max_in_flight_frames: self.max_in_flight_frames,
            frames: self.frames.clone(),
        }
    }
}

impl FrameReassembler {
    /// What holds of a reassembler at all times: it is within its bound, and
    /// every assembly that it holds is in flight and counts its chunks
    /// rightly.
    #[verifier::type_invariant]
    spec fn wf(&self) -> bool {
        &&& self@.wf()
        &&& assemblies_wf(self.frames@)
    }

    /// A reassembler that holds nothing and will hold at most
    /// `max_in_flight_frames` assemblies.
    pub fn new(max_in_flight_frames: usize) -> (reassembler: Self)
        ensures
            reassembler@ == (ReassemblerView { max_in_flight_frames, frames: Map::empty() }),
            reassembler@.wf(),
    {
        let frames = BTreeMap::new();
        proof {
            lemma_views_empty(frames@);
        }
        Self { max_in_flight_frames, frames }
    }

    /// Takes one packet and hands back the frame that it completes, if it
    /// completes one.
    pub fn push_packet(&mut self, packet: VideoPacket) -> (result: Result<
        Option<ReassembledFrame>,
        ReassemblyError,
    >)
        ensures
            old(self)@.wf(),
            final(self)@.wf(),
            final(self)@ == old(self)@.push(packet@).0,
            match old(self)@.push(packet@).1 {
                Ok(Some(frame)) => result matches Ok(Some(made)) && made@ == frame,
                Ok(None) => result matches Ok(None),
                Err(error) => result matches Err(raised) && raised == error,
            },
    {
        proof {
            use_type_invariant(&*self);
        }
        if packet.header.chunk_index >= packet.header.chunks_total {
            return Err(ReassemblyError::InvalidChunkIndex);
        }
        let frame_identifier = packet.header.frame_identifier;
        let ghost before = self.frames@;
        proof {
            reveal(FrameAssembly::in_flight);
            lemma_views_remove(before, frame_identifier);
        }
        match self.frames.get(&frame_identifier) {
            Some(known) => {
                if known.chunks_total != packet.header.chunks_total {
                    return Err(ReassemblyError::InconsistentChunkCount);
                }
            },
            None => {},
        }
        let mut frames = BTreeMap::new();
        proof {
            lemma_views_empty(frames@);
        }
        std::mem::swap(&mut frames, &mut self.frames);
        let mut assembly = match frames.remove(&frame_identifier) {
            Some(known) => known,
            None => FrameAssembly::new(packet.header.timestamp_nanos, packet.header.chunks_total),
        };
        assembly.store(packet.header.chunk_index as usize, packet.payload);
        if assembly.is_complete() {
            let frame = ReassembledFrame {
                frame_identifier,
                timestamp_nanos: assembly.timestamp_nanos,
                payload: assembly.payload(),
            };
            proof {
                lemma_views_wf(frames@);
            }
            self.frames = frames;
            return Ok(Some(frame));
        }
        frames.insert(frame_identifier, assembly);
        proof {
            lemma_filled_all(assembly@.chunks);
            lemma_views_insert(before.remove(frame_identifier), frame_identifier, assembly);
            assert(before.remove(frame_identifier).insert(frame_identifier, assembly)
                =~= before.insert(frame_identifier, assembly));
            lemma_views_insert(before, frame_identifier, assembly);
        }
        Self::evict_if_needed(&mut frames, self.max_in_flight_frames);
        proof {
            lemma_evicted_maps(
                before.insert(frame_identifier, assembly),
                self.max_in_flight_frames as nat,
                |assembly: FrameAssembly| assembly@,
            );
            lemma_views_wf(frames@);
        }
        self.frames = frames;
        Ok(None)
    }

    /// Takes one datagram as it came off the wire and hands back the frame
    /// that it completes, if it completes one. A datagram that is no packet,
    /// and a packet that is rejected, are dropped without a trace.
    pub fn push_datagram(&mut self, datagram: &[u8]) -> (frame: Option<ReassembledFrame>)
        ensures
            old(self)@.wf(),
            final(self)@.wf(),
            final(self)@ == old(self)@.receive(datagram@).0,
            match old(self)@.receive(datagram@).1 {
                Some(expected) => frame matches Some(made) && made@ == expected,
                None => frame is None,
            },
    {
        proof {
            use_type_invariant(&*self);
        }
        let packet = match decode_packet(datagram) {
            Ok(packet) => packet,
            Err(_) => {
                return None;
            },
        };
        match self.push_packet(packet) {
            Ok(frame) => frame,
            Err(_) => None,
        }
    }

    /// Drops the assembly with the smallest frame identifier for as long as more
    /// are held than `max_in_flight_frames`.
    fn evict_if_needed(frames: &mut BTreeMap<u32, FrameAssembly>, max_in_flight_frames: usize)
        requires
            assemblies_wf(old(frames)@),
        ensures
            assemblies_wf(final(frames)@),
            final(frames)@ == evicted(old(frames)@, max_in_flight_frames as nat),
            final(frames)@.len() <= max_in_flight_frames,
            final(frames)@.dom().finite(),
    {
        let ghost limit = max_in_flight_frames as nat;
        let ghost start = frames@;
        while frames.len() > max_in_flight_frames
            invariant
                limit == max_in_flight_frames,
                frames@.dom().finite(),
                evicted(frames@, limit) == evicted(start, limit),
            decreases frames@.len(),
        {
            let ghost held = frames@;
            let oldest = smallest_key(frames);
            proof {
                assert(held.len() > 0);
                lemma_evicted_step(held, limit);
            }
            if let Some(oldest_key) = oldest {
                frames.remove(&oldest_key);
            }
        }
        proof {
            lemma_evicted_step(frames@, limit);
            lemma_evicted_keeps_newest(start, limit);
        }
    }
}

/// Every assembly of `frames` is in flight and counts its chunks rightly.
spec fn assemblies_wf(frames: Map<u32, FrameAssembly>) -> bool {
    forall|key: u32| #[trigger] frames.contains_key(key) ==> frames[key].in_flight()
}

/// Assemblies that are in flight are so as mathematical values, and there
/// are as many of the ones as of the others.
proof fn lemma_views_wf(frames: Map<u32, FrameAssembly>)
    requires
        assemblies_wf(frames),
    ensures
        assembly_views(frames).dom() == frames.dom(),
        forall|key: u32| #[trigger]
            assembly_views(frames).contains_key(key) ==> assembly_views(frames)[key].in_flight(),
{
    reveal(FrameAssembly::in_flight);
    assert(assembly_views(frames).dom() =~= frames.dom());
}

/// Where there are no assemblies, all is well.
proof fn lemma_views_empty(frames: Map<u32, FrameAssembly>)
    requires
        frames == Map::<u32, FrameAssembly>::empty(),
    ensures
        assemblies_wf(frames),
        assembly_views(frames) == Map::<u32, AssemblyView>::empty(),
        assembly_views(frames).len() == 0,
        assembly_views(frames).dom().finite(),
{
    assert(assembly_views(frames) =~= Map::<u32, AssemblyView>::empty());
}

} // verus!
