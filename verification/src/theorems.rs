//! What holds of the chunks of every stream.

use crate::chunk::Chunk;
use crate::partition::{
    advanced, chunks_of, emitted, last_position, ordered, start_at, strictly_ordered,
    END_OF_STREAM_HASH,
};
use crate::separator::Separator;
use vstd::prelude::*;

verus! {

/// Offset just behind the last byte of a chunk.
pub open spec fn end_of(c: Chunk) -> int {
    c.index + c.size
}

/// Whether the byte at `offset` belongs to the chunk.
pub open spec fn holds(c: Chunk, offset: int) -> bool {
    c.index <= offset < end_of(c)
}

/// Whether the byte at `offset` belongs to one of the chunks.
pub open spec fn covered(chunks: Seq<Chunk>, offset: int) -> bool {
    exists|i: int| 0 <= i < chunks.len() && holds(#[trigger] chunks[i], offset)
}

/// Number of bytes in all the chunks together.
pub open spec fn total_size(chunks: Seq<Chunk>) -> int
    decreases chunks.len(),
{
    if chunks.len() == 0 {
        0
    } else {
        total_size(chunks.drop_last()) + chunks.last().size
    }
}

/// Whether the chunks lie one behind the other from `from` to `to`: the first
/// starts at `from`, each other one where the one before it ends, and the
/// last ends at `to`.
pub open spec fn tiles(chunks: Seq<Chunk>, from: int, to: int) -> bool {
    &&& chunks.len() == 0 ==> from == to
    &&& chunks.len() > 0 ==> chunks[0].index == from && end_of(chunks.last()) == to
    &&& forall|i: int|
        0 <= i < chunks.len() - 1 ==> end_of(#[trigger] chunks[i]) == chunks[i + 1].index
}

/// The number of chunks: one for each boundary, and one more exactly when
/// bytes follow the last boundary.
pub proof fn lemma_chunk_count(seps: Seq<Separator>, cursor: u64, len: u64)
    ensures
        chunks_of(seps, cursor, len).len() == seps.len() + if last_position(seps, cursor) < len {
            1int
        } else {
            0int
        },
{
}

/// Each chunk of the stream, by its place: the one that the `i`-th boundary
/// closes starts where the boundary before it lies and ends at that
/// boundary; the one behind them reaches from the last boundary to the end.
pub proof fn lemma_chunk_at(seps: Seq<Separator>, cursor: u64, len: u64, i: int)
    requires
        ordered(seps, cursor, len),
        0 <= i < chunks_of(seps, cursor, len).len(),
    ensures
        chunks_of(seps, cursor, len)[i].index == start_at(seps, cursor, i),
        end_of(chunks_of(seps, cursor, len)[i]) == if i < seps.len() {
            seps[i].index
        } else {
            len
        },
        cursor <= chunks_of(seps, cursor, len)[i].index,
        end_of(chunks_of(seps, cursor, len)[i]) <= len,
{
    if i > 0 {
        assert(cursor <= seps[i - 1].index <= len);
        if i < seps.len() {
            assert(seps[i - 1].index <= seps[i].index);
        }
    }
    if i < seps.len() {
        assert(cursor <= seps[i].index <= len);
    }
}

/// A stream's chunks lie one behind the other, from the cursor to the end of
/// the stream: the first starts at the cursor, each other one starts where
/// the one before it ends, and the last ends where the stream ends.
pub proof fn lemma_chunks_tile_stream(seps: Seq<Separator>, cursor: u64, len: u64)
    requires
        ordered(seps, cursor, len),
    ensures
        tiles(chunks_of(seps, cursor, len), cursor as int, len as int),
{
    let chunks = chunks_of(seps, cursor, len);
    if chunks.len() > 0 {
        lemma_chunk_at(seps, cursor, len, 0);
        lemma_chunk_at(seps, cursor, len, chunks.len() - 1);
    }
    assert forall|i: int| 0 <= i < chunks.len() - 1 implies end_of(#[trigger] chunks[i])
        == chunks[i + 1].index by {
        lemma_chunk_at(seps, cursor, len, i);
        lemma_chunk_at(seps, cursor, len, i + 1);
    }
}

/// Chunks that lie one behind the other hold as many bytes as lie between
/// where the first starts and where the last ends.
pub proof fn lemma_tiles_total_size(chunks: Seq<Chunk>, from: int, to: int)
    requires
        tiles(chunks, from, to),
    ensures
        total_size(chunks) == to - from,
    decreases chunks.len(),
{
    if chunks.len() > 0 {
        let front = chunks.drop_last();
        if front.len() > 0 {
            assert(end_of(chunks[chunks.len() - 2]) == chunks[chunks.len() - 1].index);
            assert(front.last() == chunks[chunks.len() - 2]);
        }
        assert forall|i: int| 0 <= i < front.len() - 1 implies end_of(#[trigger] front[i])
            == front[i + 1].index by {
            assert(front[i] == chunks[i]);
            assert(front[i + 1] == chunks[i + 1]);
        }
        lemma_tiles_total_size(front, from, chunks.last().index as int);
    }
}

/// The sizes of a stream's chunks add up to the bytes between the cursor and
/// the end of the stream: with the cursor at 0, to the stream's length.
pub proof fn lemma_sizes_add_up(seps: Seq<Separator>, cursor: u64, len: u64)
    requires
        ordered(seps, cursor, len),
    ensures
        total_size(chunks_of(seps, cursor, len)) == len - cursor,
{
    lemma_chunks_tile_stream(seps, cursor, len);
    lemma_tiles_total_size(chunks_of(seps, cursor, len), cursor as int, len as int);
}

/// Behind the `k`-th boundary every byte of the stream lies in a chunk.
proof fn lemma_byte_found_from(seps: Seq<Separator>, cursor: u64, len: u64, offset: int, k: int)
    requires
        ordered(seps, cursor, len),
        0 <= k <= seps.len(),
        start_at(seps, cursor, k) <= offset < len,
    ensures
        covered(chunks_of(seps, cursor, len), offset),
    decreases seps.len() - k,
{
    let chunks = chunks_of(seps, cursor, len);
    if k == seps.len() {
        lemma_chunk_at(seps, cursor, len, k);
        assert(holds(chunks[k], offset));
    } else if offset < seps[k].index {
        lemma_chunk_at(seps, cursor, len, k);
        assert(holds(chunks[k], offset));
    } else {
        lemma_byte_found_from(seps, cursor, len, offset, k + 1);
    }
}

/// Every byte between the cursor and the end of the stream lies in one chunk
/// and in no other, and no chunk holds a byte from elsewhere: the chunks
/// cover the stream with neither gap nor overlap.
pub proof fn lemma_chunks_cover_stream(seps: Seq<Separator>, cursor: u64, len: u64)
    requires
        ordered(seps, cursor, len),
    ensures
        forall|offset: int|
            cursor <= offset < len ==> #[trigger] covered(chunks_of(seps, cursor, len), offset),
        forall|offset: int, i: int, j: int|
            0 <= i < chunks_of(seps, cursor, len).len() && 0 <= j < chunks_of(
                seps,
                cursor,
                len,
            ).len() && #[trigger] holds(chunks_of(seps, cursor, len)[i], offset)
                && #[trigger] holds(chunks_of(seps, cursor, len)[j], offset) ==> i == j,
        forall|offset: int, i: int|
            0 <= i < chunks_of(seps, cursor, len).len() && #[trigger] holds(
                chunks_of(seps, cursor, len)[i],
                offset,
            ) ==> cursor <= offset < len,
{
    let chunks = chunks_of(seps, cursor, len);
    assert forall|offset: int| cursor <= offset < len implies #[trigger] covered(
        chunks,
        offset,
    ) by {
        lemma_byte_found_from(seps, cursor, len, offset, 0);
    }
    assert forall|offset: int, i: int, j: int|
        0 <= i < chunks.len() && 0 <= j < chunks.len() && #[trigger] holds(chunks[i], offset)
            && #[trigger] holds(chunks[j], offset) implies i == j by {
        lemma_chunk_at(seps, cursor, len, i);
        lemma_chunk_at(seps, cursor, len, j);
        if i < j {
            if i < j - 1 {
                assert(seps[i].index <= seps[j - 1].index);
            }
        } else if j < i {
            if j < i - 1 {
                assert(seps[j].index <= seps[i - 1].index);
            }
        }
    }
    assert forall|offset: int, i: int|
        0 <= i < chunks.len() && #[trigger] holds(chunks[i], offset) implies cursor <= offset
        < len by {
        lemma_chunk_at(seps, cursor, len, i);
    }
}

/// Where each boundary lies behind the cursor and behind the boundary before
/// it, no chunk is empty and the chunks' offsets rise from one to the next.
pub proof fn lemma_starts_rise(seps: Seq<Separator>, cursor: u64, len: u64)
    requires
        strictly_ordered(seps, cursor, len),
    ensures
        forall|i: int|
            0 <= i < chunks_of(seps, cursor, len).len() ==> (#[trigger] chunks_of(
                seps,
                cursor,
                len,
            )[i]).size > 0,
        forall|i: int, j: int|
            0 <= i < j < chunks_of(seps, cursor, len).len() ==> (#[trigger] chunks_of(
                seps,
                cursor,
                len,
            )[i]).index < (#[trigger] chunks_of(seps, cursor, len)[j]).index,
{
    let chunks = chunks_of(seps, cursor, len);
    assert(ordered(seps, cursor, len));
    assert forall|i: int| 0 <= i < chunks.len() implies (#[trigger] chunks[i]).size > 0 by {
        lemma_chunk_at(seps, cursor, len, i);
        if 0 < i < seps.len() {
            assert(seps[i - 1].index < seps[i].index);
        }
        if i < seps.len() {
            assert(cursor < seps[i].index);
        }
    }
    assert forall|i: int, j: int| 0 <= i < j < chunks.len() implies (#[trigger] chunks[i]).index < (
    #[trigger] chunks[j]).index by {
        lemma_chunk_at(seps, cursor, len, i);
        lemma_chunk_at(seps, cursor, len, j);
        assert(cursor < seps[j - 1].index);
        if 0 < i {
            assert(seps[i - 1].index < seps[j - 1].index);
        }
    }
}

/// Where the last boundary lies at the end of the stream, no chunk follows
/// it: there are as many chunks as boundaries.
pub proof fn lemma_no_chunk_behind_the_end(seps: Seq<Separator>, cursor: u64, len: u64)
    requires
        seps.len() > 0,
        seps.last().index == len,
    ensures
        chunks_of(seps, cursor, len).len() == seps.len(),
{
}

/// Each chunk that a boundary closes carries that boundary's hash, and the
/// chunk that the end of the stream closes carries `END_OF_STREAM_HASH`.
pub proof fn lemma_chunk_carries_hash(seps: Seq<Separator>, cursor: u64, len: u64)
    ensures
        forall|i: int|
            0 <= i < seps.len() ==> (#[trigger] chunks_of(seps, cursor, len)[i]).separator_hash
                == seps[i].hash,
        chunks_of(seps, cursor, len).len() > seps.len() ==> chunks_of(
            seps,
            cursor,
            len,
        ).last().separator_hash == END_OF_STREAM_HASH,
{
}

/// Once the producer has no boundary left, the pull that follows leaves the
/// cursor at the end of the stream, and every pull after it emits nothing and
/// leaves the cursor there.
pub proof fn lemma_exhaustion_lasts(cursor: u64, len: u64)
    ensures
        advanced(cursor, len, None) == len,
        emitted(advanced(cursor, len, None), len, None) is None,
        advanced(advanced(cursor, len, None), len, None) == advanced(cursor, len, None),
{
}

} // verus!
