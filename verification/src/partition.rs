//! The mathematical model of consolidation: which chunks a sequence of
//! boundaries stands for, and what one pull does to the cursor.

use crate::chunk::Chunk;
use crate::separator::Separator;
use vstd::prelude::*;

verus! {

/// Hash recorded in the chunk that the end of the stream closes. No boundary
/// closed that chunk, so the value says nothing about the data; a boundary
/// whose hash happens to be this value is indistinguishable by its hash alone.
pub const END_OF_STREAM_HASH: u64 = 0;

/// The boundary that the next pull will see, if any.
pub open spec fn head(seps: Seq<Separator>) -> Option<Separator> {
    if seps.len() > 0 {
        Some(seps[0])
    } else {
        None
    }
}

/// The boundaries that are left once the next pull has taken its own.
pub open spec fn rest(seps: Seq<Separator>) -> Seq<Separator> {
    if seps.len() > 0 {
        seps.drop_first()
    } else {
        seps
    }
}

/// Whether a pull can take `event` with the cursor at `cursor`: a boundary
/// may not lie before the cursor, and the stream may not end before it.
pub open spec fn admits(cursor: u64, len: u64, event: Option<Separator>) -> bool {
    match event {
        Some(s) => cursor <= s.index,
        None => cursor <= len,
    }
}

/// The chunk that one pull emits: up to the boundary where there is one, up
/// to the end of the stream where there is none and bytes are left, and
/// nothing where the cursor already stands at the end.
pub open spec fn emitted(cursor: u64, len: u64, event: Option<Separator>) -> Option<Chunk> {
    match event {
        Some(s) => Some(
            Chunk { index: cursor, size: (s.index - cursor) as u64, separator_hash: s.hash },
        ),
        None => if cursor < len {
            Some(
                Chunk {
                    index: cursor,
                    size: (len - cursor) as u64,
                    separator_hash: END_OF_STREAM_HASH,
                },
            )
        } else {
            None
        },
    }
}

/// Where one pull leaves the cursor.
pub open spec fn advanced(cursor: u64, len: u64, event: Option<Separator>) -> u64 {
    match event {
        Some(s) => s.index,
        None => len,
    }
}

/// Offset at which the `i`-th chunk starts: the cursor for the first, the
/// boundary before it for every other.
pub open spec fn start_at(seps: Seq<Separator>, cursor: u64, i: int) -> u64 {
    if i <= 0 {
        cursor
    } else {
        seps[i - 1].index
    }
}

/// Offset that the cursor has reached when every boundary is taken.
pub open spec fn last_position(seps: Seq<Separator>, cursor: u64) -> u64 {
    start_at(seps, cursor, seps.len() as int)
}

/// The chunk that the `i`-th boundary closes.
pub open spec fn boundary_chunk(seps: Seq<Separator>, cursor: u64, i: int) -> Chunk {
    Chunk {
        index: start_at(seps, cursor, i),
        size: (seps[i].index - start_at(seps, cursor, i)) as u64,
        separator_hash: seps[i].hash,
    }
}

/// The chunk that the end of the stream closes, where bytes follow the last
/// boundary.
pub open spec fn final_chunk(seps: Seq<Separator>, cursor: u64, len: u64) -> Chunk {
    Chunk {
        index: last_position(seps, cursor),
        size: (len - last_position(seps, cursor)) as u64,
        separator_hash: END_OF_STREAM_HASH,
    }
}

/// All chunks of a stream of `len` bytes, read from `cursor` on, whose
/// boundaries are `seps`: one chunk for each boundary, and one more for the
/// bytes after the last boundary if there are any.
pub open spec fn chunks_of(seps: Seq<Separator>, cursor: u64, len: u64) -> Seq<Chunk> {
    let closed = Seq::new(seps.len(), |i: int| boundary_chunk(seps, cursor, i));
    if last_position(seps, cursor) < len {
        closed.push(final_chunk(seps, cursor, len))
    } else {
        closed
    }
}

/// Boundaries that a consolidator at `cursor` can take one after the other:
/// none lies before the cursor or behind the end of the stream, and none lies
/// before an earlier one.
pub open spec fn ordered(seps: Seq<Separator>, cursor: u64, len: u64) -> bool {
    &&& cursor <= len
    &&& forall|i: int| 0 <= i < seps.len() ==> cursor <= (#[trigger] seps[i]).index <= len
    &&& forall|i: int, j: int|
        0 <= i < j < seps.len() ==> (#[trigger] seps[i]).index <= (#[trigger] seps[j]).index
}

/// Boundaries as a detector yields them: each lies behind the cursor and
/// behind every earlier one, so that no chunk is empty.
pub open spec fn strictly_ordered(seps: Seq<Separator>, cursor: u64, len: u64) -> bool {
    &&& cursor <= len
    &&& forall|i: int| 0 <= i < seps.len() ==> cursor < (#[trigger] seps[i]).index <= len
    &&& forall|i: int, j: int|
        0 <= i < j < seps.len() ==> (#[trigger] seps[i]).index < (#[trigger] seps[j]).index
}

/// One pull splits the chunks of a stream into the chunk it emits and the
/// chunks of what is left.
pub proof fn lemma_chunks_unfold(seps: Seq<Separator>, cursor: u64, len: u64)
    ensures
        chunks_of(seps, cursor, len) =~= match emitted(cursor, len, head(seps)) {
            Some(c) => if seps.len() > 0 {
                seq![c] + chunks_of(rest(seps), advanced(cursor, len, head(seps)), len)
            } else {
                seq![c]
            },
            None => Seq::empty(),
        },
{
    if seps.len() > 0 {
        let tail = seps.drop_first();
        let next = seps[0].index;
        assert forall|i: int| 0 <= i < tail.len() implies boundary_chunk(tail, next, i)
            == boundary_chunk(seps, cursor, i + 1) by {
            assert(tail[i] == seps[i + 1]);
            if i > 0 {
                assert(tail[i - 1] == seps[i]);
            }
        }
        if tail.len() > 0 {
            assert(tail[tail.len() - 1] == seps[seps.len() - 1]);
        }
        assert(last_position(tail, next) == last_position(seps, cursor));
    }
}

/// Taking the first boundary leaves boundaries that can be taken in turn.
pub proof fn lemma_ordered_rest(seps: Seq<Separator>, cursor: u64, len: u64)
    requires
        ordered(seps, cursor, len),
    ensures
        admits(cursor, len, head(seps)),
        ordered(rest(seps), advanced(cursor, len, head(seps)), len),
{
    if seps.len() > 0 {
        let tail = seps.drop_first();
        assert forall|i: int| 0 <= i < tail.len() implies seps[0].index <= (#[trigger] tail[i]).index
            <= len by {
            assert(tail[i] == seps[i + 1]);
        }
        assert forall|i: int, j: int| 0 <= i < j < tail.len() implies (#[trigger] tail[i]).index <= (
        #[trigger] tail[j]).index by {
            assert(tail[i] == seps[i + 1]);
            assert(tail[j] == seps[j + 1]);
        }
    }
}

} // verus!
