//! Push-shaped chunking with chunk records: feed data in arbitrary pieces,
//! receive every chunk with its place in the stream and its bytes.
use vstd::prelude::*;
use vstd::slice::slice_to_vec;

use crate::chunker::Chunker;
use crate::pending::Pending;
use crate::sizing;
use crate::sizing::{Cut, Sizes};
use crate::streaming;
use crate::slice::Chunk;

verus! {

/// Takes completed chunks with their bytes, in order.
pub trait ChunkSink {
    /// What has been taken so far.
    spec fn received(&self) -> Seq<(Cut, Seq<u8>)>;

    /// Takes one more chunk.
    fn emit(&mut self, chunk: Chunk, bytes: &[u8])
        ensures
            final(self).received() == old(self).received().push((chunk@, bytes@)),
    ;
}

impl ChunkSink for Vec<(Chunk, Vec<u8>)> {
    open spec fn received(&self) -> Seq<(Cut, Seq<u8>)> {
        self@.map_values(|v: (Chunk, Vec<u8>)| (v.0@, v.1@))
    }

    fn emit(&mut self, chunk: Chunk, bytes: &[u8])
        ensures
            final(self)@.len() == old(self)@.len() + 1,
            final(self)@.last().0 == chunk,
            final(self)@.last().1@ == bytes@,
            final(self)@.drop_last() == old(self)@,
    {
        self.push((chunk, slice_to_vec(bytes)));
        assert(self.received() =~= old(self).received().push((chunk@, bytes@)));
    }
}

/// Incremental chunker over a byte stream that reports where each chunk lies.
pub struct Feeder {
    inner: Pending,
    offset: usize,
}

impl Feeder {
    /// The chunker is well-formed, less than `max` bytes are pending, the
    /// buffer holds no more than what is pending twice over, and the end of the
    /// stream so far is an offset.
    pub open spec fn wf(self) -> bool {
        &&& self.sizes().valid()
        &&& self.buffer_ok()
        &&& self.pending().len() < self.sizes().max
        &&& self.pending().len() <= self.buffered() <= usize::MAX
        &&& self.buffered() <= 2 * self.pending().len()
        &&& 0 <= self.emitted()
        &&& self.emitted() + self.pending().len() <= usize::MAX
    }

    /// The buffer is well-formed.
    pub closed spec fn buffer_ok(self) -> bool {
        self.inner.wf()
    }

    /// The sizes that chunks are cut by.
    pub closed spec fn sizes(self) -> Sizes {
        self.inner.sizes()
    }

    /// The bytes that have been fed and not been emitted.
    pub closed spec fn pending(self) -> Seq<u8> {
        self.inner.bytes()
    }

    /// The number of bytes that the buffer holds.
    pub closed spec fn buffered(self) -> nat {
        self.inner.buffered()
    }

    /// Law: what is pending and what is buffered is what the buffer has of both.
    proof fn lemma_representation(self)
        ensures
            self.pending() == self.inner.bytes(),
            self.buffered() == self.inner.buffered(),
            self.sizes() == self.inner.sizes(),
            self.emitted() == self.offset,
    {
    }

    /// Law: memory is bounded. What the buffer holds while a piece of `piece`
    /// bytes is pushed, which is what it held before and the piece, is at most
    /// twice the sum of `max` and the piece.
    pub proof fn lemma_memory_bound(self, piece: nat)
        requires
            self.wf(),
        ensures
            self.buffered() + piece <= 2 * (self.sizes().max + piece),
    {
    }

    /// The number of bytes that have been emitted.
    pub closed spec fn emitted(self) -> int {
        self.offset as int
    }

    /// A feeder with nothing fed, for the given sizes: powers of two with
    /// `min < avg < max`, and an average of at most 16 KiB.
    pub fn new(min_size: usize, avg_size: usize, max_size: usize) -> (f: Feeder)
        requires
            (Sizes { min: min_size as int, avg: avg_size as int, max: max_size as int }).valid(),
        ensures
            f.wf(),
            f.sizes() == (Sizes { min: min_size as int, avg: avg_size as int, max: max_size as int }),
            f.pending() == Seq::<u8>::empty(),
            f.emitted() == 0,
    {
        let chunker = Chunker::new(min_size, avg_size, max_size);
        proof {
            sizing::lemma_ordered(chunker@);
        }
        Feeder { inner: Pending::new(chunker), offset: 0 }
    }

    /// No cut falls before this size.
    pub fn min_size(&self) -> (n: usize)
        ensures
            n == self.sizes().min,
    {
        self.inner.chunker().min_size()
    }

    /// The size at which the mask changes from hard to easy.
    pub fn avg_size(&self) -> (n: usize)
        ensures
            n == self.sizes().avg,
    {
        self.inner.chunker().avg_size()
    }

    /// No chunk is longer than this size.
    pub fn max_size(&self) -> (n: usize)
        ensures
            n == self.sizes().max,
    {
        self.inner.chunker().max_size()
    }

    /// Feed more input. The sink takes every chunk that the input settles, in
    /// order. What stays pending is shorter than `max_size`, and the buffer
    /// holds no more than twice that.
    pub fn push<S: ChunkSink>(&mut self, data: &[u8], emit: &mut S)
        requires
            old(self).wf(),
            old(self).buffered() + data@.len() <= usize::MAX,
            old(self).emitted() + old(self).pending().len() + data@.len() <= usize::MAX,
        ensures
            final(self).wf(),
            final(self).sizes() == old(self).sizes(),
            ({
                let seen = old(self).pending() + data@;
                &&& final(emit).received() == old(emit).received() + streaming::items(
                    seen,
                    streaming::settled(old(self).sizes(), seen),
                    old(self).emitted(),
                )
                &&& final(self).emitted() == old(self).emitted() + streaming::settled_end(
                    old(self).sizes(),
                    seen,
                    0,
                )
                &&& final(self).pending() == streaming::unsettled(old(self).sizes(), seen)
            }),
            final(self).pending().len() < old(self).sizes().max,
            final(self).buffered() <= old(self).buffered() + data@.len(),
    {
        let ghost s = self.inner.sizes();
        let ghost before = emit.received();
        let ghost mut done: Seq<(Cut, Seq<u8>)> = Seq::empty();
        self.inner.extend(data);
        let ghost seen = self.inner.bytes();
        let ghost held = self.inner.buffered();
        let ghost end = self.offset + seen.len();
        let ghost all = streaming::items(seen, streaming::settled(s, seen), self.offset as int);
        let ghost settled = self.offset + streaming::settled_end(s, seen, 0);
        proof {
            sizing::lemma_ordered(s);
            assert(before + done =~= before);
            assert(done + all =~= all);
        }
        while self.inner.is_settled()
            invariant
                self.inner.wf(),
                self.inner.sizes() == s,
                s.ordered(),
                self.inner.buffered() == held,
                self.offset + self.inner.bytes().len() == end,
                end <= usize::MAX,
                done + streaming::items(
                    self.inner.bytes(),
                    streaming::settled(s, self.inner.bytes()),
                    self.offset as int,
                ) == all,
                self.offset + streaming::settled_end(s, self.inner.bytes(), 0) == settled,
                streaming::unsettled(s, self.inner.bytes()) == streaming::unsettled(s, seen),
                emit.received() == before + done,
            decreases self.inner.bytes().len(),
        {
            let ghost left = self.inner.bytes();
            let (cut, hash) = self.inner.cut();
            proof {
                sizing::lemma_next_cut(s, left);
                streaming::lemma_settled_unfold(s, left, self.offset as int);
            }
            let chunk = Chunk { hash, offset: self.offset, length: cut };
            emit.emit(chunk, self.inner.front(cut));
            self.inner.advance(cut);
            self.offset = self.offset + cut;
            proof {
                let item = (chunk@, left.take(cut as int));
                let after = streaming::items(
                    self.inner.bytes(),
                    streaming::settled(s, self.inner.bytes()),
                    self.offset as int,
                );
                assert(done.push(item) + after =~= done + (seq![item] + after));
                assert(before + done.push(item) =~= (before + done).push(item));
                done = done.push(item);
            }
        }
        proof {
            let left = self.inner.bytes();
            assert(streaming::items(left, streaming::settled(s, left), self.offset as int)
                =~= Seq::empty());
            assert(done + Seq::<(Cut, Seq<u8>)>::empty() =~= done);
            assert(streaming::unsettled(s, left) =~= left);
        }
        self.inner.compact();
    }

    /// End of input: emit the remaining chunks (the final one is cut by the end
    /// of the input and may be shorter than `min_size`).
    pub fn finish<S: ChunkSink>(self, emit: &mut S)
        requires
            self.wf(),
        ensures
            final(emit).received() == old(emit).received() + streaming::items(
                self.pending(),
                sizing::cuts(self.sizes(), self.pending()),
                self.emitted(),
            ),
    {
        let ghost s = self.inner.sizes();
        let ghost data = self.inner.bytes();
        let ghost before = emit.received();
        let ghost whole = streaming::items(data, sizing::cuts(s, data), self.offset as int);
        let ghost mut done: Seq<(Cut, Seq<u8>)> = Seq::empty();
        let mut inner = self.inner;
        let mut offset: usize = self.offset;
        proof {
            sizing::lemma_ordered(s);
            assert(done + whole =~= whole);
            assert(before + done =~= before);
        }
        while !inner.is_empty()
            invariant
                inner.wf(),
                inner.sizes() == s,
                s.ordered(),
                offset + inner.bytes().len() <= usize::MAX,
                done + streaming::items(
                    inner.bytes(),
                    sizing::cuts(s, inner.bytes()),
                    offset as int,
                ) == whole,
                emit.received() == before + done,
            decreases inner.bytes().len(),
        {
            let ghost left = inner.bytes();
            let (cut, hash) = inner.cut();
            proof {
                sizing::lemma_next_cut(s, left);
                streaming::lemma_items_unfold(s, left, offset as int);
            }
            let chunk = Chunk { hash, offset, length: cut };
            emit.emit(chunk, inner.front(cut));
            inner.advance(cut);
            offset = offset + cut;
            proof {
                let item = (chunk@, left.take(cut as int));
                let after = streaming::items(
                    inner.bytes(),
                    sizing::cuts(s, inner.bytes()),
                    offset as int,
                );
                assert(done.push(item) + after =~= done + (seq![item] + after));
                assert(before + done.push(item) =~= (before + done).push(item));
                done = done.push(item);
            }
        }
        proof {
            assert(streaming::items(inner.bytes(), sizing::cuts(s, inner.bytes()), offset as int)
                =~= Seq::empty());
            assert(done + Seq::<(Cut, Seq<u8>)>::empty() =~= done);
        }
    }
}

} // verus!
