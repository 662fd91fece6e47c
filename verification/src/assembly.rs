//! A frame in flight: one slot for each chunk, filled as the chunks arrive.

use vstd::prelude::*;
use crate::chunks::concat;

verus! {

/// What is known of a frame in flight: one slot for each of its chunks, empty
/// until the chunk arrives.
pub struct AssemblyView {
    /// Taken from the packet that arrived first.
    pub timestamp_nanos: u64,
    pub chunks_total: u16,
    pub chunks: Seq<Option<Seq<u8>>>,
}

/// How many of `slots` hold a chunk.
pub open spec fn filled(slots: Seq<Option<Seq<u8>>>) -> nat
    decreases slots.len(),
{
    if slots.len() == 0 {
        0
    } else {
        filled(slots.drop_last()) + if slots.last() is Some {
            1nat
        } else {
            0nat
        }
    }
}

/// What a slot adds to the frame: its chunk, or nothing while it is empty.
pub open spec fn slot_bytes(slot: Option<Seq<u8>>) -> Seq<u8> {
    match slot {
        Some(bytes) => bytes,
        None => Seq::empty(),
    }
}

impl AssemblyView {
    /// The assembly that the first packet of a frame opens.
    pub open spec fn fresh(timestamp_nanos: u64, chunks_total: u16) -> Self {
        AssemblyView {
            timestamp_nanos,
            chunks_total,
            chunks: Seq::new(chunks_total as nat, |index: int| None::<Seq<u8>>),
        }
    }

    /// How many chunks have arrived.
    pub open spec fn received_count(self) -> nat {
        filled(self.chunks)
    }

    /// One slot for each chunk.
    pub open spec fn wf(self) -> bool {
        self.chunks.len() == self.chunks_total
    }

    /// All chunks have arrived.
    pub open spec fn is_complete(self) -> bool {
        self.received_count() == self.chunks_total
    }

    /// Some chunks have arrived and some are still to come: what holds of
    /// every assembly that a reassembler keeps between calls.
    pub open spec fn in_flight(self) -> bool {
        &&& self.wf()
        &&& 0 < self.received_count() < self.chunks_total
    }

    /// The assembly after chunk `index` has arrived with `payload`. A slot
    /// that is taken keeps what it has.
    pub open spec fn store(self, index: int, payload: Seq<u8>) -> Self {
        if self.chunks[index] is None {
            AssemblyView {
                timestamp_nanos: self.timestamp_nanos,
                chunks_total: self.chunks_total,
                chunks: self.chunks.update(index, Some(payload)),
            }
        } else {
            self
        }
    }

    /// The chunks in ascending index order, one after the other.
    pub open spec fn payload(self) -> Seq<u8> {
        concat(self.chunks.map_values(|slot: Option<Seq<u8>>| slot_bytes(slot)))
    }
}

/// Filling an empty slot raises the count of filled slots by one.
pub proof fn lemma_filled_update(slots: Seq<Option<Seq<u8>>>, index: int, bytes: Seq<u8>)
    requires
        0 <= index < slots.len(),
        slots[index] is None,
    ensures
        filled(slots.update(index, Some(bytes))) == filled(slots) + 1,
    decreases slots.len(),
{
    let updated = slots.update(index, Some(bytes));
    if index == slots.len() - 1 {
        assert(updated.drop_last() =~= slots.drop_last());
    } else {
        lemma_filled_update(slots.drop_last(), index, bytes);
        assert(updated.drop_last() =~= slots.drop_last().update(index, Some(bytes)));
    }
}

/// No more slots are filled than there are, and all of them are filled
/// exactly when none is empty.
pub proof fn lemma_filled_all(slots: Seq<Option<Seq<u8>>>)
    ensures
        filled(slots) <= slots.len(),
        filled(slots) == slots.len() <==> forall|index: int|
            0 <= index < slots.len() ==> (#[trigger] slots[index]) is Some,
    decreases slots.len(),
{
    if slots.len() > 0 {
        let front = slots.drop_last();
        lemma_filled_all(front);
        if filled(slots) == slots.len() {
            assert forall|index: int| 0 <= index < slots.len() implies (
            #[trigger] slots[index]) is Some by {
                if index < front.len() {
                    assert(front[index] is Some);
                }
            }
        }
        if forall|index: int| 0 <= index < slots.len() ==> (#[trigger] slots[index]) is Some {
            assert forall|index: int| 0 <= index < front.len() implies (
            #[trigger] front[index]) is Some by {
                assert(slots[index] is Some);
            }
        }
    }
}

/// Nothing has arrived in a fresh assembly.
pub proof fn lemma_filled_fresh(timestamp_nanos: u64, chunks_total: u16)
    ensures
        AssemblyView::fresh(timestamp_nanos, chunks_total).received_count() == 0,
        AssemblyView::fresh(timestamp_nanos, chunks_total).wf(),
{
    let slots = AssemblyView::fresh(timestamp_nanos, chunks_total).chunks;
    lemma_filled_all(slots);
    if slots.len() > 0 && filled(slots) > 0 {
        lemma_filled_some(slots);
    }
}

/// Where the count of filled slots is not zero, some slot is filled.
pub proof fn lemma_filled_some(slots: Seq<Option<Seq<u8>>>)
    requires
        filled(slots) > 0,
    ensures
        exists|index: int| 0 <= index < slots.len() && (#[trigger] slots[index]) is Some,
    decreases slots.len(),
{
    if slots.last() is Some {
        assert(slots[slots.len() - 1] is Some);
    } else {
        let front = slots.drop_last();
        lemma_filled_some(front);
        let index = choose|index: int| 0 <= index < front.len() && (#[trigger] front[index]) is Some;
        assert(slots[index] is Some);
    }
}

/// Storing a chunk keeps one slot for each chunk, and leaves at least one
/// slot filled.
pub proof fn lemma_store(assembly: AssemblyView, index: int, payload: Seq<u8>)
    requires
        assembly.wf(),
        0 <= index < assembly.chunks_total,
    ensures
        assembly.store(index, payload).wf(),
        assembly.store(index, payload).chunks_total == assembly.chunks_total,
        assembly.store(index, payload).timestamp_nanos == assembly.timestamp_nanos,
        assembly.store(index, payload).chunks[index] is Some,
        assembly.store(index, payload).received_count() >= 1,
        assembly.store(index, payload).received_count() == assembly.received_count()
            + if assembly.chunks[index] is None {
            1nat
        } else {
            0nat
        },
        assembly.store(index, payload).store(index, payload) == assembly.store(index, payload),
{
    if assembly.chunks[index] is None {
        lemma_filled_update(assembly.chunks, index, payload);
    } else {
        if filled(assembly.chunks) == 0 {
            lemma_filled_none(assembly.chunks, index);
        }
    }
}

/// Where no slot is filled, every slot is empty.
pub proof fn lemma_filled_none(slots: Seq<Option<Seq<u8>>>, index: int)
    requires
        filled(slots) == 0,
        0 <= index < slots.len(),
    ensures
        slots[index] is None,
    decreases slots.len(),
{
    if index < slots.len() - 1 {
        lemma_filled_none(slots.drop_last(), index);
    }
}

} // verus!
