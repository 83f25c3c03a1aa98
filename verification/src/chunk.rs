//! Chunks, and the consolidator that derives them from boundaries.

use crate::partition::{
    admits, advanced, chunks_of, emitted, head, lemma_chunks_unfold, lemma_ordered_rest, ordered,
    rest, END_OF_STREAM_HASH,
};
use crate::separator::Separator;
use vstd::prelude::*;
use vstd::std_specs::iter::IteratorSpec;

verus! {

/// One contiguous span of the stream.
#[derive(Clone, Copy, Debug, PartialEq, Eq, Structural)]
pub struct Chunk {
    /// Offset of the chunk's first byte.
    pub index: u64,
    /// Number of bytes in the chunk.
    pub size: u64,
    /// Hash of the boundary that closed the chunk, or `END_OF_STREAM_HASH`
    /// where the end of the stream closed it.
    pub separator_hash: u64,
}

/// Turns boundaries into chunks, one chunk for each pull.
///
/// The boundaries come from `Iter`, which is polled once for each pull, in
/// order. The cursor is the only state: it stands just behind the chunk
/// emitted last.
pub struct ChunkIter<Iter> {
    separators: Iter,
    stream_length: u64,
    last_separator_index: u64,
}

impl<Iter: Iterator<Item = Separator>> ChunkIter<Iter> {
    /// What `cursor` returns.
    pub closed spec fn spec_cursor(&self) -> u64 {
        self.last_separator_index
    }

    /// What `stream_length` returns.
    pub closed spec fn spec_stream_length(&self) -> u64 {
        self.stream_length
    }

    /// The producer of boundaries, in the state it is in.
    pub closed spec fn source(&self) -> Iter {
        self.separators
    }

    /// A consolidator for a stream of `stream_length` bytes whose boundaries
    /// `iter` yields. Nothing is polled yet.
    pub fn new(iter: Iter, stream_length: u64) -> (chunks: ChunkIter<Iter>)
        ensures
            chunks.cursor() == 0,
            chunks.stream_length() == stream_length,
            chunks.source() == iter,
    {
        ChunkIter { separators: iter, stream_length: stream_length, last_separator_index: 0 }
    }

    /// Offset just behind the chunk emitted last; 0 before the first pull.
    #[verifier::when_used_as_spec(spec_cursor)]
    pub fn cursor(&self) -> (cursor: u64)
        ensures
            cursor == self.spec_cursor(),
    {
        self.last_separator_index
    }

    /// Length of the stream that the chunks are to cover.
    #[verifier::when_used_as_spec(spec_stream_length)]
    pub fn stream_length(&self) -> (len: u64)
        ensures
            len == self.spec_stream_length(),
    {
        self.stream_length
    }

    /// Takes what the producer answered to one poll and emits the chunk that
    /// it closes: the bytes from the cursor to the boundary, or to the end of
    /// the stream where no boundary is left. Emits nothing where no boundary
    /// is left and the cursor stands at the end already.
    ///
    /// The caller sees to it that the boundary does not lie before the
    /// cursor, and that the stream does not end before it: the sizes are
    /// plain differences.
    pub fn accept(&mut self, event: Option<Separator>) -> (out: Option<Chunk>)
        requires
            admits(old(self).cursor(), old(self).stream_length(), event),
        ensures
            out == emitted(old(self).cursor(), old(self).stream_length(), event),
            final(self).cursor() == advanced(old(self).cursor(), old(self).stream_length(), event),
            final(self).stream_length() == old(self).stream_length(),
            final(self).source() == old(self).source(),
    {
        match event {
            Some(separator) => {
                let chunk_index: u64 = self.last_separator_index;
                let chunk_size: u64 = separator.index - self.last_separator_index;
                self.last_separator_index = separator.index;
                Some(Chunk { index: chunk_index, size: chunk_size, separator_hash: separator.hash })
            },
            None => {
                let chunk_index: u64 = self.last_separator_index;
                let chunk_size: u64 = self.stream_length - self.last_separator_index;
                self.last_separator_index = self.stream_length;
                if chunk_size > 0 {
                    Some(
                        Chunk {
                            index: chunk_index,
                            size: chunk_size,
                            separator_hash: END_OF_STREAM_HASH,
                        },
                    )
                } else {
                    None
                }
            },
        }
    }

    /// Polls the producer once and emits the next chunk, or `None` when the
    /// stream is covered. Once it has returned `None` it does so for ever.
    ///
    /// What the producer is about to yield must be something that `accept`
    /// can take with the cursor where it stands.
    pub fn next(&mut self) -> (out: Option<Chunk>)
        requires
            old(self).source().obeys_prophetic_iter_laws(),
            admits(
                old(self).cursor(),
                old(self).stream_length(),
                head(old(self).source().remaining()),
            ),
        ensures
            out == emitted(
                old(self).cursor(),
                old(self).stream_length(),
                head(old(self).source().remaining()),
            ),
            final(self).cursor() == advanced(
                old(self).cursor(),
                old(self).stream_length(),
                head(old(self).source().remaining()),
            ),
            final(self).stream_length() == old(self).stream_length(),
            final(self).source().remaining() == rest(old(self).source().remaining()),
            final(self).source().obeys_prophetic_iter_laws(),
            final(self).source().decrease() is Some <==> old(self).source().decrease() is Some,
            old(self).source().remaining().len() > 0 && final(self).source().decrease() is Some
                ==> decreases_to!(old(self).source().decrease()->0 => final(self).source().decrease()->0),
    {
        let event = self.separators.next();
        self.accept(event)
    }

    /// Pulls until the producer has no boundary left and the stream is
    /// covered, and returns every chunk, in order.
    ///
    /// The boundaries to come must be such that each pull can take its own,
    /// and the producer must be one that comes to an end.
    pub fn collect(self) -> (out: Vec<Chunk>)
        requires
            self.source().obeys_prophetic_iter_laws(),
            self.source().decrease() is Some,
            ordered(self.source().remaining(), self.cursor(), self.stream_length()),
        ensures
            out@ == chunks_of(self.source().remaining(), self.cursor(), self.stream_length()),
    {
        let mut out: Vec<Chunk> = Vec::new();
        let mut it = self;
        loop
            invariant_except_break
                it.stream_length() == self.stream_length(),
                it.source().obeys_prophetic_iter_laws(),
                it.source().decrease() is Some,
                ordered(it.source().remaining(), it.cursor(), it.stream_length()),
                chunks_of(self.source().remaining(), self.cursor(), self.stream_length()) == out@
                    + chunks_of(it.source().remaining(), it.cursor(), it.stream_length()),
            ensures
                out@ == chunks_of(self.source().remaining(), self.cursor(), self.stream_length()),
            decreases it.source().decrease()->0,
        {
            proof {
                lemma_chunks_unfold(it.source().remaining(), it.cursor(), it.stream_length());
                lemma_ordered_rest(it.source().remaining(), it.cursor(), it.stream_length());
            }
            let event = it.separators.next();
            let last = event.is_none();
            match it.accept(event) {
                Some(chunk) => {
                    out.push(chunk);
                },
                None => {},
            }
            if last {
                break ;
            }
        }
        out
    }
}

} // verus!
