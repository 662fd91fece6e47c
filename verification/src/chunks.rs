//! How a payload is cut into chunks and put together again.

use vstd::prelude::*;

verus! {

/// How many chunks of at most `limit` bytes it takes to hold `length` bytes:
/// `length / limit`, rounded up.
pub open spec fn chunk_count(length: nat, limit: nat) -> nat
    recommends
        limit > 0,
{
    ((length + limit - 1) / (limit as int)) as nat
}

/// Chunk `index` of `payload`: the `index`-th window of `limit` bytes, cut
/// short where the payload ends.
pub open spec fn chunk(payload: Seq<u8>, limit: nat, index: nat) -> Seq<u8> {
    let start = (index * limit) as int;
    let end = if start + limit <= payload.len() {
        start + limit
    } else {
        payload.len() as int
    };
    payload.subrange(start, end)
}

/// All chunks of `payload`, in ascending order.
pub open spec fn chunks(payload: Seq<u8>, limit: nat) -> Seq<Seq<u8>> {
    Seq::new(chunk_count(payload.len(), limit), |index: int| chunk(payload, limit, index as nat))
}

/// The parts of `parts`, one after the other.
pub open spec fn concat(parts: Seq<Seq<u8>>) -> Seq<u8>
    decreases parts.len(),
{
    if parts.len() == 0 {
        Seq::empty()
    } else {
        concat(parts.drop_last()) + parts.last()
    }
}

/// The chunk count is the least number of chunks that hold the payload.
pub proof fn lemma_chunk_count_is_ceiling(length: nat, limit: nat)
    requires
        limit > 0,
    ensures
        chunk_count(length, limit) * limit >= length,
        length > 0 ==> chunk_count(length, limit) >= 1 && (chunk_count(length, limit) - 1) * limit
            < length,
        length == 0 ==> chunk_count(length, limit) == 0,
        length > 0 ==> chunk_count(length, limit) == (length - 1) / (limit as int) + 1,
{
    let padded = length + limit - 1;
    let count = padded / (limit as int);
    assert(padded == limit * count + padded % (limit as int) && 0 <= padded % (limit as int)
        < limit) by (nonlinear_arith)
        requires
            limit > 0,
            count == padded / (limit as int),
    ;
    assert(count >= 0) by (nonlinear_arith)
        requires
            limit > 0,
            padded >= 0,
            count == padded / (limit as int),
    ;
    assert(count * limit == limit * count) by (nonlinear_arith);
    assert((count - 1) * limit == limit * count - limit) by (nonlinear_arith);
    if length > 0 {
        let short = (length - 1) / (limit as int);
        assert(length - 1 == limit * short + (length - 1) % (limit as int) && 0 <= (length - 1) % (
        limit as int) < limit) by (nonlinear_arith)
            requires
                limit > 0,
                short == (length - 1) / (limit as int),
        ;
        assert(count == short + 1) by (nonlinear_arith)
            requires
                limit > 0,
                limit * count <= padded < limit * count + limit,
                limit * short <= length - 1 < limit * short + limit,
                padded == length - 1 + limit,
        ;
    } else {
        assert(count == 0) by (nonlinear_arith)
            requires
                limit > 0,
                limit * count <= padded < limit * count + limit,
                padded == limit - 1,
        ;
    }
}

/// Where chunk `index` lies: it starts inside the payload, and only the last
/// chunk may be shorter than the limit.
pub proof fn lemma_chunk_extent(length: nat, limit: nat, index: nat)
    requires
        limit > 0,
        index < chunk_count(length, limit),
    ensures
        index * limit < length,
        index + 1 < chunk_count(length, limit) ==> index * limit + limit <= length,
        index + 1 == chunk_count(length, limit) ==> index * limit + limit >= length,
{
    let count = chunk_count(length, limit);
    lemma_chunk_count_is_ceiling(length, limit);
    assert(index * limit <= (count - 1) * limit) by (nonlinear_arith)
        requires
            index <= count - 1,
            limit > 0,
    ;
    if index + 1 < count {
        assert(index * limit + limit <= (count - 1) * limit) by (nonlinear_arith)
            requires
                index + 1 <= count - 1,
                limit > 0,
        ;
    } else {
        assert(index * limit + limit == count * limit) by (nonlinear_arith)
            requires
                index + 1 == count,
        ;
    }
}

/// Every chunk but the last is exactly `limit` bytes long, and the last holds
/// between one byte and `limit` bytes.
pub proof fn lemma_chunk_lengths(payload: Seq<u8>, limit: nat, index: nat)
    requires
        limit > 0,
        index < chunk_count(payload.len(), limit),
    ensures
        index + 1 < chunk_count(payload.len(), limit) ==> chunk(payload, limit, index).len()
            == limit,
        1 <= chunk(payload, limit, index).len() <= limit,
{
    lemma_chunk_extent(payload.len(), limit, index);
}

/// The first `count` chunks, put together, are the payload up to where chunk
/// `count` starts.
proof fn lemma_concat_prefix(payload: Seq<u8>, limit: nat, count: nat)
    requires
        limit > 0,
        count <= chunk_count(payload.len(), limit),
    ensures
        count < chunk_count(payload.len(), limit) ==> concat(
            chunks(payload, limit).subrange(0, count as int),
        ) == payload.subrange(0, (count * limit) as int),
        count == chunk_count(payload.len(), limit) ==> concat(
            chunks(payload, limit).subrange(0, count as int),
        ) == payload,
    decreases count,
{
    let all = chunks(payload, limit);
    let taken = all.subrange(0, count as int);
    if count == 0 {
        lemma_chunk_count_is_ceiling(payload.len(), limit);
        assert(count * limit == 0) by (nonlinear_arith)
            requires
                count == 0,
        ;
        assert(concat(taken) =~= payload.subrange(0, 0));
        if chunk_count(payload.len(), limit) == 0 {
            assert(payload =~= Seq::empty());
        }
    } else {
        let before = (count - 1) as nat;
        lemma_concat_prefix(payload, limit, before);
        lemma_chunk_extent(payload.len(), limit, before);
        assert(taken.drop_last() =~= all.subrange(0, before as int));
        assert(taken.last() == chunk(payload, limit, before));
        assert(before * limit + limit == count * limit) by (nonlinear_arith)
            requires
                before + 1 == count,
        ;
        if count < chunk_count(payload.len(), limit) {
            lemma_chunk_extent(payload.len(), limit, count);
            assert(concat(taken) =~= payload.subrange(0, (count * limit) as int));
        } else {
            assert(concat(taken) =~= payload);
        }
    }
}

/// Cutting a payload into chunks and putting the chunks together in order
/// gives the payload back.
pub proof fn lemma_concat_of_chunks(payload: Seq<u8>, limit: nat)
    requires
        limit > 0,
    ensures
        concat(chunks(payload, limit)) == payload,
{
    let all = chunks(payload, limit);
    lemma_concat_prefix(payload, limit, chunk_count(payload.len(), limit));
    assert(all.subrange(0, all.len() as int) =~= all);
}

} // verus!
