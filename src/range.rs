//! Splittable views over a chunk sequence, the shape a fork-join scheduler divides work by.
use crate::chunker::Chunk;
use vstd::prelude::*;

verus! {

/// A shared view of consecutive chunks.
pub struct ChunkRange<'a> {
    chunks: &'a [Chunk],
}

impl<'a> View for ChunkRange<'a> {
    type V = Seq<Chunk>;

    closed spec fn view(&self) -> Seq<Chunk> {
        self.chunks@
    }
}

impl<'a> ChunkRange<'a> {
    /// A view of all of `chunks`, in their order.
    pub fn new(chunks: &'a [Chunk]) -> (r: ChunkRange<'a>)
        ensures
            r@ == chunks@,
    {
        ChunkRange { chunks }
    }

    /// Number of chunks in view.
    pub fn len(&self) -> (n: usize)
        ensures
            n == self@.len(),
    {
        self.chunks.len()
    }

    /// The chunk at position `i` of the view.
    pub fn get(&self, i: usize) -> (c: Chunk)
        requires
            i < self@.len(),
        ensures
            c == self@[i as int],
    {
        self.chunks[i]
    }

    /// The chunks in view, in order.
    pub fn as_slice(&self) -> (s: &'a [Chunk])
        ensures
            s@ == self@,
    {
        self.chunks
    }

    /// Cuts the view in two at `at`: positions `[0, at)` and `[at, len)`.
    pub fn split_at(self, at: usize) -> (r: (ChunkRange<'a>, ChunkRange<'a>))
        requires
            at <= self@.len(),
        ensures
            r.0@ == self@.subrange(0, at as int),
            r.1@ == self@.subrange(at as int, self@.len() as int),
            r.0@.len() == at,
            r.0@ + r.1@ == self@,
    {
        let (left, right) = self.chunks.split_at(at);
        proof {
            assert(left@ + right@ =~= self@);
        }
        (ChunkRange { chunks: left }, ChunkRange { chunks: right })
    }
}

/// An exclusive view of consecutive chunks: the two halves of a split never share a chunk.
pub struct ChunkRangeMut<'a> {
    pub chunks: &'a mut [Chunk],
}

impl<'a> ChunkRangeMut<'a> {
    /// An exclusive view of all of `chunks`, in their order.
    pub fn new(chunks: &'a mut [Chunk]) -> (r: ChunkRangeMut<'a>)
        ensures
            r.chunks@ == old(chunks)@,
            final(r.chunks)@ == final(chunks)@,
    {
        ChunkRangeMut { chunks }
    }

    /// Number of chunks in view.
    pub fn len(&self) -> (n: usize)
        ensures
            n == old(self.chunks)@.len(),
    {
        self.chunks.len()
    }

    /// Replaces the chunk at position `i` of the view.
    pub fn set(&mut self, i: usize, c: Chunk)
        requires
            i < old(self).chunks@.len(),
        ensures
            final(self).chunks@ == old(self).chunks@.update(i as int, c),
    {
        self.chunks[i] = c;
    }

    /// Cuts the view in two at `at`; what the halves hold when released is what the whole
    /// holds, in order.
    pub fn split_at(self, at: usize) -> (r: (ChunkRangeMut<'a>, ChunkRangeMut<'a>))
        requires
            at <= self.chunks@.len(),
        ensures
            r.0.chunks@ == old(self.chunks)@.subrange(0, at as int),
            r.1.chunks@ == old(self.chunks)@.subrange(at as int, old(self.chunks)@.len() as int),
            final(self.chunks)@ == final(r.0.chunks)@ + final(r.1.chunks)@,
    {
        let (left, right) = self.chunks.split_at_mut(at);
        (ChunkRangeMut { chunks: left }, ChunkRangeMut { chunks: right })
    }
}

} // verus!
