//! The chunk sequencer: an unbounded, forward-only sequence of contiguous
//! half-open ranges of fixed size, which ends only where the next range
//! would overflow `usize`.
use std::ops::Range;
use vstd::prelude::*;

verus! {

/// Cursor over the chunks `[s, s + size)`, `[s + size, s + 2 * size)`, ...
pub struct ChunksBoundsIterator {
    pub chunk_size: usize,
    pub next_chunk_start: usize,
}

impl ChunksBoundsIterator {
    /// No further chunk can be produced: its end would not fit in `usize`.
    pub open spec fn is_exhausted(&self) -> bool {
        self.next_chunk_start + self.chunk_size > usize::MAX
    }

    pub fn new(chunk_size: usize, start: usize) -> (r: ChunksBoundsIterator)
        requires
            chunk_size >= 1,
        ensures
            r.chunk_size == chunk_size,
            r.next_chunk_start == start,
    {
        ChunksBoundsIterator { chunk_size, next_chunk_start: start }
    }

    /// Hands out the next chunk and moves the cursor past it, or returns
    /// `None` (leaving the cursor where it is) once the sequence is exhausted.
    pub fn next(&mut self) -> (r: Option<Range<usize>>)
        requires
            old(self).chunk_size >= 1,
        ensures
            final(self).chunk_size == old(self).chunk_size,
            old(self).is_exhausted() ==> r is None && final(self).next_chunk_start
                == old(self).next_chunk_start,
            !old(self).is_exhausted() ==> r == Some(
                old(self).next_chunk_start..(old(self).next_chunk_start + old(self).chunk_size) as usize,
            ) && final(self).next_chunk_start == old(self).next_chunk_start + old(self).chunk_size,
    {
        let start = self.next_chunk_start;
        match start.checked_add(self.chunk_size) {
            None => None,
            Some(next_start) => {
                self.next_chunk_start = next_start;
                Some(start..next_start)
            },
        }
    }
}

} // verus!
