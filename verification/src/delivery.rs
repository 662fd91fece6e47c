//! What a receiver makes of what a sender emits.
//!
//! The packets of one frame, pushed in any order, come out as that frame:
//! once, on the last push, with the payload that went in.

use vstd::prelude::*;
use crate::assembly::{lemma_filled_all, lemma_filled_fresh, lemma_store, slot_bytes, AssemblyView};
use crate::chunks::{
    chunk,
    chunk_count,
    chunks,
    lemma_chunk_count_is_ceiling,
    lemma_concat_of_chunks,
};
use crate::packet::{VideoPacketHeader, VideoPacketView};
use crate::packetizer::{PacketizerView, MAX_CHUNKS};
use crate::reassembler::ReassemblyError;
use crate::reassembly::{ReassembledFrameView, ReassemblerView};

verus! {

/// `order` names each of the positions `0 .. count` once.
pub open spec fn is_arrangement(order: Seq<int>, count: nat) -> bool {
    &&& order.len() == count
    &&& forall|place: int| 0 <= place < order.len() ==> 0 <= #[trigger] order[place] < count
    &&& forall|first: int, second: int|
        0 <= first < second < order.len() ==> order[first] != order[second]
}

/// The packets in the order in which `order` names them.
pub open spec fn arranged(packets: Seq<VideoPacketView>, order: Seq<int>) -> Seq<VideoPacketView> {
    Seq::new(order.len(), |place: int| packets[order[place]])
}

/// The assembly of a frame of which the chunks that `arrived` names have
/// arrived, and no others.
pub open spec fn gathered(
    timestamp_nanos: u64,
    payload: Seq<u8>,
    limit: nat,
    arrived: Seq<int>,
) -> AssemblyView {
    AssemblyView {
        timestamp_nanos,
        chunks_total: chunk_count(payload.len(), limit) as u16,
        chunks: Seq::new(
            chunk_count(payload.len(), limit),
            |index: int|
                if arrived.contains(index) {
                    Some(chunk(payload, limit, index as nat))
                } else {
                    None
                },
        ),
    }
}

/// When all chunks have arrived, what has been gathered is the payload.
proof fn lemma_gathered_all(timestamp_nanos: u64, payload: Seq<u8>, limit: nat, arrived: Seq<int>)
    requires
        limit > 0,
        chunk_count(payload.len(), limit) <= MAX_CHUNKS,
        is_arrangement(arrived, chunk_count(payload.len(), limit)),
        gathered(timestamp_nanos, payload, limit, arrived).is_complete(),
    ensures
        gathered(timestamp_nanos, payload, limit, arrived).payload() == payload,
{
    let assembly = gathered(timestamp_nanos, payload, limit, arrived);
    lemma_filled_all(assembly.chunks);
    lemma_concat_of_chunks(payload, limit);
    assert(assembly.chunks.len() == chunk_count(payload.len(), limit));
    assert(assembly.chunks.map_values(|slot: Option<Seq<u8>>| slot_bytes(slot)) =~= chunks(
        payload,
        limit,
    )) by {
        assert forall|index: int| 0 <= index < assembly.chunks.len() implies slot_bytes(
            #[trigger] assembly.chunks[index],
        ) == chunk(payload, limit, index as nat) by {
            assert(assembly.chunks[index] is Some);
        }
    }
}

/// Where the receiver stands after the first `arrived` packets of a frame
/// have been pushed, as long as one at least is still to come: nothing has
/// been handed back, and what has arrived is gathered under the frame's
/// identifier.
proof fn lemma_gathering(
    receiver: ReassemblerView,
    sender: PacketizerView,
    frame_identifier: u32,
    timestamp_nanos: u64,
    payload: Seq<u8>,
    order: Seq<int>,
    arrived: nat,
)
    requires
        receiver.wf(),
        sender.refusal(payload) is None,
        is_arrangement(
            order,
            sender.packets(frame_identifier, timestamp_nanos, payload).len(),
        ),
        !receiver.frames.contains_key(frame_identifier),
        receiver.admits(frame_identifier) || order.len() == 1,
        arrived < order.len(),
    ensures
        ({
            let packets = sender.packets(frame_identifier, timestamp_nanos, payload);
            let fed = arranged(packets, order);
            let limit = sender.config.max_payload_bytes as nat;
            let state = receiver.push_all(fed.subrange(0, arrived as int));
            let so_far = gathered(
                timestamp_nanos,
                payload,
                limit,
                order.subrange(0, arrived as int),
            );
            &&& state.wf()
            &&& state.max_in_flight_frames == receiver.max_in_flight_frames
            &&& arrived == 0 ==> state == receiver
            &&& arrived > 0 ==> state.frames.contains_key(frame_identifier)
                && state.frames[frame_identifier] == so_far
            &&& so_far.received_count() == arrived
            &&& so_far.wf()
            &&& forall|place: int|
                0 <= place < arrived ==> #[trigger] receiver.result_at(fed, place) == Ok::<
                    Option<ReassembledFrameView>,
                    ReassemblyError,
                >(None)
        }),
    decreases arrived,
{
    let packets = sender.packets(frame_identifier, timestamp_nanos, payload);
    let count = packets.len();
    let fed = arranged(packets, order);
    let limit = sender.config.max_payload_bytes as nat;
    let so_far = gathered(timestamp_nanos, payload, limit, order.subrange(0, arrived as int));
    lemma_chunk_count_is_ceiling(payload.len(), limit);
    sender.lemma_headers(frame_identifier, timestamp_nanos, payload, 0);
    if arrived == 0 {
        lemma_filled_fresh(timestamp_nanos, count as u16);
        assert(so_far.chunks =~= AssemblyView::fresh(timestamp_nanos, count as u16).chunks);
        assert(fed.subrange(0, 0) =~= Seq::empty());
    } else {
        let earlier = (arrived - 1) as nat;
        lemma_gathering(
            receiver,
            sender,
            frame_identifier,
            timestamp_nanos,
            payload,
            order,
            earlier,
        );
        let before = receiver.push_all(fed.subrange(0, earlier as int));
        let had = gathered(timestamp_nanos, payload, limit, order.subrange(0, earlier as int));
        let packet = fed[earlier as int];
        let index = order[earlier as int];
        sender.lemma_headers(frame_identifier, timestamp_nanos, payload, index);
        assert(packet == packets[index]);
        assert(fed.subrange(0, arrived as int).drop_last() =~= fed.subrange(0, earlier as int));
        assert(fed.subrange(0, arrived as int).last() == packet);
        assert(receiver.push_all(fed.subrange(0, arrived as int)) == before.push(packet).0);
        assert(receiver.result_at(fed, earlier as int) == before.push(packet).1);

        lemma_filled_fresh(timestamp_nanos, count as u16);
        if earlier == 0 {
            assert(order.subrange(0, 0) =~= Seq::empty());
            assert(had.chunks =~= AssemblyView::fresh(timestamp_nanos, count as u16).chunks);
        }
        assert(before.held(packet.header) == had);
        assert(before.rejection(packet.header) is None);
        assert(!order.subrange(0, earlier as int).contains(index));
        assert(had.chunks[index] is None);
        lemma_store(had, index, packet.payload);
        assert(had.store(index, packet.payload).chunks =~= so_far.chunks) by {
            assert forall|slot: int| 0 <= slot < count implies order.subrange(
                0,
                arrived as int,
            ).contains(slot) == (order.subrange(0, earlier as int).contains(slot) || slot
                == index) by {
                if order.subrange(0, arrived as int).contains(slot) {
                    let place = choose|place: int|
                        0 <= place < arrived && order.subrange(0, arrived as int)[place] == slot;
                    if place < earlier {
                        assert(order.subrange(0, earlier as int)[place] == slot);
                    }
                }
                if order.subrange(0, earlier as int).contains(slot) {
                    let place = choose|place: int|
                        0 <= place < earlier && order.subrange(0, earlier as int)[place] == slot;
                    assert(order.subrange(0, arrived as int)[place] == slot);
                }
                if slot == index {
                    assert(order.subrange(0, arrived as int)[earlier as int] == slot);
                }
            }
        }
        assert(before.stored(packet) == so_far);
        lemma_filled_all(so_far.chunks);
        assert(!so_far.is_complete());
        assert(before.admits(frame_identifier));
        before.lemma_push_stores(packet);
        before.lemma_push_wf(packet);
        assert forall|place: int| 0 <= place < arrived implies #[trigger] receiver.result_at(
            fed,
            place,
        ) == Ok::<Option<ReassembledFrameView>, ReassemblyError>(None) by {
            if place < earlier {
            }
        }
    }
}

/// The packets of one frame, pushed in the order that an arrangement of
/// their positions names, come out as that frame on the last push.
pub proof fn lemma_arrangement_delivers(
    receiver: ReassemblerView,
    sender: PacketizerView,
    frame_identifier: u32,
    timestamp_nanos: u64,
    payload: Seq<u8>,
    order: Seq<int>,
)
    requires
        receiver.wf(),
        sender.refusal(payload) is None,
        is_arrangement(
            order,
            sender.packets(frame_identifier, timestamp_nanos, payload).len(),
        ),
        !receiver.frames.contains_key(frame_identifier),
        receiver.admits(frame_identifier) || order.len() == 1,
    ensures
        ({
            let fed = arranged(
                sender.packets(frame_identifier, timestamp_nanos, payload),
                order,
            );
            &&& fed.len() >= 1
            &&& forall|place: int|
                0 <= place < fed.len() - 1 ==> #[trigger] receiver.result_at(fed, place) == Ok::<
                    Option<ReassembledFrameView>,
                    ReassemblyError,
                >(None)
            &&& receiver.result_at(fed, fed.len() - 1) == Ok::<
                Option<ReassembledFrameView>,
                ReassemblyError,
            >(Some(ReassembledFrameView { frame_identifier, timestamp_nanos, payload }))
            &&& receiver.push_all(fed).wf()
            &&& !receiver.push_all(fed).frames.contains_key(frame_identifier)
        }),
{
    let packets = sender.packets(frame_identifier, timestamp_nanos, payload);
    let count = packets.len();
    let fed = arranged(packets, order);
    let limit = sender.config.max_payload_bytes as nat;
    lemma_chunk_count_is_ceiling(payload.len(), limit);
    sender.lemma_headers(frame_identifier, timestamp_nanos, payload, 0);
    let earlier = (count - 1) as nat;
    lemma_gathering(receiver, sender, frame_identifier, timestamp_nanos, payload, order, earlier);
    let before = receiver.push_all(fed.subrange(0, earlier as int));
    let had = gathered(timestamp_nanos, payload, limit, order.subrange(0, earlier as int));
    let all = gathered(timestamp_nanos, payload, limit, order);
    let packet = fed[earlier as int];
    let index = order[earlier as int];
    sender.lemma_headers(frame_identifier, timestamp_nanos, payload, index);
    assert(packet == packets[index]);
    assert(fed.subrange(0, count as int) =~= fed);
    assert(fed.drop_last() =~= fed.subrange(0, earlier as int));
    assert(receiver.push_all(fed) == before.push(packet).0);

    lemma_filled_fresh(timestamp_nanos, count as u16);
    if earlier == 0 {
        assert(order.subrange(0, 0) =~= Seq::empty());
        assert(had.chunks =~= AssemblyView::fresh(timestamp_nanos, count as u16).chunks);
    }
    assert(before.held(packet.header) == had);
    assert(before.rejection(packet.header) is None);
    assert(!order.subrange(0, earlier as int).contains(index));
    lemma_store(had, index, packet.payload);
    assert(had.store(index, packet.payload).chunks =~= all.chunks) by {
        assert forall|slot: int| 0 <= slot < count implies order.contains(slot) == (
        order.subrange(0, earlier as int).contains(slot) || slot == index) by {
            if order.contains(slot) {
                let place = choose|place: int| 0 <= place < count && order[place] == slot;
                if place < earlier {
                    assert(order.subrange(0, earlier as int)[place] == slot);
                }
            }
            if order.subrange(0, earlier as int).contains(slot) {
                let place = choose|place: int|
                    0 <= place < earlier && order.subrange(0, earlier as int)[place] == slot;
                assert(order[place] == slot);
            }
            if slot == index {
                assert(order[earlier as int] == slot);
            }
        }
    }
    assert(before.stored(packet) == all);
    assert(all.is_complete());
    lemma_gathered_all(timestamp_nanos, payload, limit, order);
    before.lemma_push_wf(packet);
}

/// The packets that a packetizer cuts a frame into, pushed into a reassembler
/// in any order, come out as one frame: every push but the last hands back
/// nothing, and the last hands back the frame with its identifier, its
/// timestamp and the payload that went in.
///
/// The reassembler must not hold an assembly under the frame's identifier
/// already, and, where the frame has more than one chunk, it must admit the
/// frame: with no room, and no older frame to evict in its place, the new
/// assembly is evicted at once.
pub proof fn lemma_any_order_delivers(
    receiver: ReassemblerView,
    sender: PacketizerView,
    frame_identifier: u32,
    timestamp_nanos: u64,
    payload: Seq<u8>,
    fed: Seq<VideoPacketView>,
)
    requires
        receiver.wf(),
        sender.refusal(payload) is None,
        fed.to_multiset() == sender.packets(
            frame_identifier,
            timestamp_nanos,
            payload,
        ).to_multiset(),
        !receiver.frames.contains_key(frame_identifier),
        receiver.admits(frame_identifier) || fed.len() == 1,
    ensures
        fed.len() >= 1,
        forall|place: int|
            0 <= place < fed.len() - 1 ==> #[trigger] receiver.result_at(fed, place) == Ok::<
                Option<ReassembledFrameView>,
                ReassemblyError,
            >(None),
        receiver.result_at(fed, fed.len() - 1) == Ok::<
            Option<ReassembledFrameView>,
            ReassemblyError,
        >(Some(ReassembledFrameView { frame_identifier, timestamp_nanos, payload })),
        receiver.push_all(fed).wf(),
        !receiver.push_all(fed).frames.contains_key(frame_identifier),
{
    let packets = sender.packets(frame_identifier, timestamp_nanos, payload);
    let count = packets.len();
    let limit = sender.config.max_payload_bytes as nat;
    lemma_chunk_count_is_ceiling(payload.len(), limit);
    packets.to_multiset_ensures();
    fed.to_multiset_ensures();
    assert forall|place: int| 0 <= place < count implies (#[trigger] packets[place]).header.chunk_index
        == place by {
        sender.lemma_headers(frame_identifier, timestamp_nanos, payload, place);
    }
    assert(packets.no_duplicates());
    packets.lemma_multiset_has_no_duplicates();
    fed.lemma_multiset_has_no_duplicates_conv();
    let order = Seq::new(count, |place: int| fed[place].header.chunk_index as int);
    assert forall|place: int| 0 <= place < count implies 0 <= #[trigger] order[place] < count
        && packets[order[place]] == fed[place] by {
        assert(fed.contains(fed[place]));
        assert(fed.to_multiset().count(fed[place]) > 0);
        assert(packets.to_multiset().count(fed[place]) > 0);
        assert(packets.contains(fed[place]));
        let origin = choose|origin: int| 0 <= origin < count && packets[origin] == fed[place];
        assert(packets[origin].header.chunk_index == origin);
    }
    assert(arranged(packets, order) =~= fed);
    assert(is_arrangement(order, count));
    lemma_arrangement_delivers(
        receiver,
        sender,
        frame_identifier,
        timestamp_nanos,
        payload,
        order,
    );
}

} // verus!
