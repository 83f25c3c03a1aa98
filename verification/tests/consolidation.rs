use cdc::{Chunk, ChunkIter, Separator, END_OF_STREAM_HASH};

/// Finds boundaries in a byte stream: keeps a hash of the last `window`
/// bytes and reports a boundary behind each byte at which `predicate` accepts
/// the hash.
struct Scanner<I, F> {
    bytes: I,
    window: Vec<u8>,
    window_size: usize,
    position: u64,
    predicate: F,
}

impl<I: Iterator<Item = u8>, F: Fn(u64) -> bool> Scanner<I, F> {
    fn custom_new(bytes: I, window_size_nb_bits: u32, predicate: F) -> Scanner<I, F> {
        Scanner {
            bytes,
            window: Vec::new(),
            window_size: 1usize << window_size_nb_bits,
            position: 0,
            predicate,
        }
    }

    fn hash(&self) -> u64 {
        let mut hash: u64 = 0;
        for byte in &self.window {
            hash = hash.wrapping_mul(31).wrapping_add(u64::from(*byte));
        }
        hash.wrapping_mul(0x9e37_79b9_7f4a_7c15) >> 32
    }
}

impl<I: Iterator<Item = u8>, F: Fn(u64) -> bool> Iterator for Scanner<I, F> {
    type Item = Separator;

    fn next(&mut self) -> Option<Separator> {
        while let Some(byte) = self.bytes.next() {
            self.position += 1;
            if self.window.len() == self.window_size {
                self.window.remove(0);
            }
            self.window.push(byte);
            if self.window.len() == self.window_size {
                let hash = self.hash();
                if (self.predicate)(hash) {
                    return Some(Separator { index: self.position, hash });
                }
            }
        }
        None
    }
}

fn separators(positions: &[u64], hashes: &[u64]) -> Vec<Separator> {
    positions
        .iter()
        .zip(hashes.iter())
        .map(|(index, hash)| Separator { index: *index, hash: *hash })
        .collect()
}

fn chunk(index: u64, size: u64, separator_hash: u64) -> Chunk {
    Chunk { index, size, separator_hash }
}

#[test]
fn test_whole() {
    let bytes: Vec<u8> = (0..4096u32).map(|b| b as u8).collect();

    let chunks: Vec<_> = ChunkIter::new(
        Scanner::custom_new(bytes.iter().cloned(), 4, |hash| hash & 0xff == 0),
        bytes.len() as u64,
    )
    .collect();

    assert_eq!(chunks[0].index, 0);

    let mut i = 0;
    for chunk in &chunks {
        assert_eq!(chunk.index, i);
        i += chunk.size;
    }

    let last_chunk = &chunks[chunks.len() - 1];
    assert_eq!((last_chunk.index + last_chunk.size) as usize, bytes.len());
}

#[test]
fn scanned_stream_has_boundaries_and_rising_offsets() {
    let bytes: Vec<u8> = (0..4096u32).map(|b| b as u8).collect();
    let found: Vec<Separator> =
        Scanner::custom_new(bytes.iter().cloned(), 4, |hash| hash & 0xff == 0).collect();
    assert_eq!(found.len(), 16);
    assert_eq!(found[0].index, 121);
    assert_eq!(found[15].index, 3961);

    let chunks = ChunkIter::new(found.clone().into_iter(), 4096).collect();
    assert_eq!(chunks.len(), 17);
    assert_eq!(chunks[0].size, 121);
    assert_eq!(chunks[1], Chunk { index: 121, size: 256, separator_hash: found[1].hash });
    assert_eq!(chunks[16], Chunk { index: 3961, size: 135, separator_hash: 0 });
    assert_eq!(chunks.iter().map(|c| c.size).sum::<u64>(), 4096);
    assert_eq!(chunks[0].index, 0);
    for pair in chunks.windows(2) {
        assert!(pair[0].index < pair[1].index);
    }
}

#[test]
fn two_boundaries_then_the_end() {
    let seps = separators(&[3, 7], &[100, 200]);
    let chunks = ChunkIter::new(seps.into_iter(), 10).collect();
    assert_eq!(
        chunks,
        vec![chunk(0, 3, 100), chunk(3, 4, 200), chunk(7, 3, END_OF_STREAM_HASH)]
    );
}

#[test]
fn two_boundaries_pull_by_pull() {
    let seps = separators(&[3, 7], &[100, 200]);
    let mut it = ChunkIter::new(seps.into_iter(), 10);
    assert_eq!(it.cursor(), 0);
    assert_eq!(it.stream_length(), 10);
    assert_eq!(it.next(), Some(chunk(0, 3, 100)));
    assert_eq!(it.cursor(), 3);
    assert_eq!(it.next(), Some(chunk(3, 4, 200)));
    assert_eq!(it.cursor(), 7);
    assert_eq!(it.next(), Some(chunk(7, 3, 0)));
    assert_eq!(it.cursor(), 10);
    assert_eq!(it.next(), None);
    assert_eq!(it.cursor(), 10);
    assert_eq!(it.stream_length(), 10);
}

#[test]
fn empty_stream_has_no_chunk() {
    let chunks = ChunkIter::new(Vec::<Separator>::new().into_iter(), 0).collect();
    assert!(chunks.is_empty());

    let mut it = ChunkIter::new(Vec::<Separator>::new().into_iter(), 0);
    assert_eq!(it.next(), None);
    assert_eq!(it.cursor(), 0);
}

#[test]
fn boundary_at_the_end_closes_the_last_chunk() {
    let seps = separators(&[5], &[42]);
    let chunks = ChunkIter::new(seps.into_iter(), 5).collect();
    assert_eq!(chunks, vec![chunk(0, 5, 42)]);

    let mut it = ChunkIter::new(separators(&[5], &[42]).into_iter(), 5);
    assert_eq!(it.next(), Some(chunk(0, 5, 42)));
    assert_eq!(it.next(), None);
}

#[test]
fn stream_without_boundary_is_one_chunk() {
    let chunks = ChunkIter::new(Vec::<Separator>::new().into_iter(), 20).collect();
    assert_eq!(chunks, vec![chunk(0, 20, END_OF_STREAM_HASH)]);
}

#[test]
fn end_of_stream_hash_is_zero() {
    assert_eq!(END_OF_STREAM_HASH, 0);
}

#[test]
fn pulls_after_the_end_emit_nothing() {
    let mut it = ChunkIter::new(separators(&[4], &[9]).into_iter(), 6);
    assert_eq!(it.next(), Some(chunk(0, 4, 9)));
    assert_eq!(it.next(), Some(chunk(4, 2, 0)));
    for _ in 0..5 {
        assert_eq!(it.next(), None);
        assert_eq!(it.cursor(), 6);
    }
}

#[test]
fn chunks_cover_the_stream() {
    let positions = [1u64, 2, 10, 64, 65, 900];
    let hashes = [11u64, 12, 13, 14, 15, 16];
    let len = 1000u64;
    let chunks = ChunkIter::new(separators(&positions, &hashes).into_iter(), len).collect();

    assert_eq!(chunks.len(), positions.len() + 1);
    assert_eq!(chunks[0].index, 0);
    for pair in chunks.windows(2) {
        assert_eq!(pair[1].index, pair[0].index + pair[0].size);
        assert!(pair[0].index < pair[1].index);
    }
    let last = chunks[chunks.len() - 1];
    assert_eq!(last.index + last.size, len);
    assert_eq!(chunks.iter().map(|c| c.size).sum::<u64>(), len);
    for offset in 0..len {
        let holders = chunks
            .iter()
            .filter(|c| c.index <= offset && offset < c.index + c.size)
            .count();
        assert_eq!(holders, 1);
    }
    for c in &chunks {
        assert!(c.size > 0);
    }
}

#[test]
fn as_many_chunks_as_boundaries_when_the_last_is_at_the_end() {
    let positions = [10u64, 20, 30];
    let hashes = [1u64, 2, 3];
    let chunks = ChunkIter::new(separators(&positions, &hashes).into_iter(), 30).collect();
    assert_eq!(chunks.len(), 3);
    assert_eq!(chunks, vec![chunk(0, 10, 1), chunk(10, 10, 2), chunk(20, 10, 3)]);

    let longer = ChunkIter::new(separators(&positions, &hashes).into_iter(), 31).collect();
    assert_eq!(longer.len(), 4);
    assert_eq!(longer[3], chunk(30, 1, 0));
}

#[test]
fn each_chunk_carries_the_hash_of_its_boundary() {
    let positions = [8u64, 16, 24, 32];
    let hashes = [0xdead_beefu64, 0, u64::MAX, 7];
    let chunks = ChunkIter::new(separators(&positions, &hashes).into_iter(), 40).collect();
    assert_eq!(chunks.len(), 5);
    for i in 0..positions.len() {
        assert_eq!(chunks[i].separator_hash, hashes[i]);
    }
    assert_eq!(chunks[4].separator_hash, END_OF_STREAM_HASH);
}

#[test]
fn boundary_at_the_cursor_gives_an_empty_chunk() {
    let chunks = ChunkIter::new(separators(&[0, 5], &[1, 2]).into_iter(), 10).collect();
    assert_eq!(chunks, vec![chunk(0, 0, 1), chunk(0, 5, 2), chunk(5, 5, 0)]);
}

#[test]
fn offsets_up_to_the_largest() {
    let chunks = ChunkIter::new(separators(&[u64::MAX - 1], &[3]).into_iter(), u64::MAX).collect();
    assert_eq!(chunks, vec![chunk(0, u64::MAX - 1, 3), chunk(u64::MAX - 1, 1, 0)]);
}

#[test]
fn accept_takes_events_by_hand() {
    let mut it = ChunkIter::new(Vec::<Separator>::new().into_iter(), 10);
    assert_eq!(it.accept(Some(Separator { index: 3, hash: 100 })), Some(chunk(0, 3, 100)));
    assert_eq!(it.cursor(), 3);
    assert_eq!(it.accept(Some(Separator { index: 7, hash: 200 })), Some(chunk(3, 4, 200)));
    assert_eq!(it.cursor(), 7);
    assert_eq!(it.accept(None), Some(chunk(7, 3, 0)));
    assert_eq!(it.cursor(), 10);
    assert_eq!(it.accept(None), None);
    assert_eq!(it.cursor(), 10);
    assert_eq!(it.stream_length(), 10);
}

#[test]
fn producer_is_polled_once_for_each_pull() {
    let polls = std::rc::Rc::new(std::cell::Cell::new(0u32));
    let seen = polls.clone();
    let source = separators(&[2, 4], &[5, 6]).into_iter().inspect(move |_| {
        seen.set(seen.get() + 1);
    });
    let mut it = ChunkIter::new(source, 4);
    assert_eq!(polls.get(), 0);
    assert_eq!(it.next(), Some(chunk(0, 2, 5)));
    assert_eq!(polls.get(), 1);
    assert_eq!(it.next(), Some(chunk(2, 2, 6)));
    assert_eq!(polls.get(), 2);
    assert_eq!(it.next(), None);
    assert_eq!(polls.get(), 2);
}
