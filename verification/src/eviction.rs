//! Which entries leave when a map keyed by frame identifier holds too many.

use vstd::prelude::*;

verus! {

/// The smallest of `keys`.
pub open spec fn smallest(keys: Set<u32>) -> u32
    recommends
        !keys.is_empty(),
{
    choose|key: u32| keys.contains(key) && forall|other: u32| keys.contains(other) ==> key <= other
}

/// A set of frame identifiers that is not empty has a smallest member.
pub proof fn lemma_smallest(keys: Set<u32>, member: u32)
    requires
        keys.contains(member),
    ensures
        keys.contains(smallest(keys)),
        forall|other: u32| keys.contains(other) ==> smallest(keys) <= other,
    decreases member,
{
    if exists|below: u32| keys.contains(below) && below < member {
        let below = choose|below: u32| keys.contains(below) && below < member;
        lemma_smallest(keys, below);
    } else {
        assert(keys.contains(member) && forall|other: u32|
            keys.contains(other) ==> member <= other);
    }
}

/// What is left of `frames` when the entry with the smallest key is dropped
/// for as long as there are more than `limit` entries.
#[verifier::opaque]
pub open spec fn evicted<V>(frames: Map<u32, V>, limit: nat) -> Map<u32, V>
    decreases frames.len(),
    when frames.dom().finite()
{
    if frames.len() > limit {
        proof {
            lemma_drop_smallest(frames);
        }
        evicted(frames.remove(smallest(frames.dom())), limit)
    } else {
        frames
    }
}

/// Dropping the smallest key of a map that is not empty makes it smaller by
/// one entry.
pub proof fn lemma_drop_smallest<V>(frames: Map<u32, V>)
    requires
        frames.dom().finite(),
        frames.len() > 0,
    ensures
        frames.contains_key(smallest(frames.dom())),
        frames.remove(smallest(frames.dom())).dom().finite(),
        frames.remove(smallest(frames.dom())).len() == frames.len() - 1,
{
    let member = frames.dom().choose();
    lemma_smallest(frames.dom(), member);
}

/// Where more is held than the limit allows, eviction drops the smallest
/// key and goes on; where not, it changes nothing.
pub proof fn lemma_evicted_step<V>(frames: Map<u32, V>, limit: nat)
    requires
        frames.dom().finite(),
    ensures
        frames.len() > limit ==> evicted(frames, limit) == evicted(
            frames.remove(smallest(frames.dom())),
            limit,
        ),
        frames.len() <= limit ==> evicted(frames, limit) == frames,
{
    reveal(evicted);
}

/// Eviction keeps the entries with the largest keys, as many as the limit
/// allows, and keeps them as they are.
pub proof fn lemma_evicted_keeps_newest<V>(frames: Map<u32, V>, limit: nat)
    requires
        frames.dom().finite(),
    ensures
        evicted(frames, limit).dom().finite(),
        evicted(frames, limit).len() == if frames.len() <= limit {
            frames.len()
        } else {
            limit
        },
        forall|key: u32| #[trigger]
            evicted(frames, limit).contains_key(key) ==> frames.contains_key(key) && evicted(
                frames,
                limit,
            )[key] == frames[key],
        forall|kept: u32, dropped: u32|
            evicted(frames, limit).contains_key(kept) && frames.contains_key(dropped) && !evicted(
                frames,
                limit,
            ).contains_key(dropped) ==> dropped < kept,
    decreases frames.len(),
{
    lemma_evicted_step(frames, limit);
    if frames.len() > limit {
        let oldest = smallest(frames.dom());
        lemma_drop_smallest(frames);
        lemma_smallest(frames.dom(), oldest);
        lemma_evicted_keeps_newest(frames.remove(oldest), limit);
    }
}

/// Eviction looks at keys alone: it does to a map what it does to any map
/// with the same keys.
pub proof fn lemma_evicted_maps<V, W>(frames: Map<u32, V>, limit: nat, f: spec_fn(V) -> W)
    requires
        frames.dom().finite(),
    ensures
        evicted(frames.map_values(f), limit) == evicted(frames, limit).map_values(f),
    decreases frames.len(),
{
    let mapped = frames.map_values(f);
    assert(mapped.dom() =~= frames.dom());
    lemma_evicted_step(frames, limit);
    lemma_evicted_step(mapped, limit);
    if frames.len() > limit {
        let oldest = smallest(frames.dom());
        lemma_drop_smallest(frames);
        lemma_evicted_maps(frames.remove(oldest), limit, f);
        assert(mapped.remove(oldest) =~= frames.remove(oldest).map_values(f));
    }
}

} // verus!
