//! Streaming chunker: feed data in arbitrary pieces, receive chunks as they
//! complete. The chunks are those of slice chunking: a cut decision needs at
//! most `max_size` bytes of lookahead, so a chunk is emitted as soon as that
//! much data is buffered past its start.
use vstd::prelude::*;
use vstd::slice::slice_to_vec;

use crate::chunker::Chunker;
use crate::pending::Pending;
use crate::sizing;
use crate::sizing::Sizes;
use crate::streaming;

verus! {

/// Takes the bytes of completed chunks, in order.
pub trait ByteSink {
    /// What has been taken so far.
    spec fn received(&self) -> Seq<Seq<u8>>;

    /// Takes the bytes of one more chunk.
    fn emit(&mut self, bytes: &[u8])
        ensures
            final(self).received() == old(self).received().push(bytes@),
    ;
}

impl ByteSink for Vec<Vec<u8>> {
    open spec fn received(&self) -> Seq<Seq<u8>> {
        self@.map_values(|v: Vec<u8>| v@)
    }

    fn emit(&mut self, bytes: &[u8])
        ensures
            final(self)@.len() == old(self)@.len() + 1,
            final(self)@.last()@ == bytes@,
            final(self)@.drop_last() == old(self)@,
    {
        self.push(slice_to_vec(bytes));
        assert(self.received() =~= old(self).received().push(bytes@));
    }
}

/// Incremental chunker over a byte stream.
pub struct StreamChunker {
    inner: Pending,
}

impl StreamChunker {
    /// The chunker is well-formed, less than `max` bytes are pending, and the
    /// buffer holds no more than what is pending twice over.
    pub open spec fn wf(self) -> bool {
        &&& self.sizes().valid()
        &&& self.buffer_ok()
        &&& self.pending().len() < self.sizes().max
        &&& self.pending().len() <= self.buffered() <= usize::MAX
        &&& self.buffered() <= 2 * self.pending().len()
    }

    /// The buffer is well-formed.
    pub closed spec fn buffer_ok(self) -> bool {
        self.inner.wf()
    }

    /// The sizes that chunks are cut by.
    pub closed spec fn sizes(self) -> Sizes {
        self.inner.sizes()
    }

    /// The bytes that have been fed and not been emitted.
    pub closed spec fn pending(self) -> Seq<u8> {
        self.inner.bytes()
    }

    /// The number of bytes that the buffer holds.
    pub closed spec fn buffered(self) -> nat {
        self.inner.buffered()
    }

    /// Law: what is pending and what is buffered is what the buffer has of both.
    proof fn lemma_representation(self)
        ensures
            self.pending() == self.inner.bytes(),
            self.buffered() == self.inner.buffered(),
            self.sizes() == self.inner.sizes(),
    {
    }

    /// Law: memory is bounded. What the buffer holds while a piece of `piece`
    /// bytes is pushed, which is what it held before and the piece, is at most
    /// twice the sum of `max` and the piece.
    pub proof fn lemma_memory_bound(self, piece: nat)
        requires
            self.wf(),
        ensures
            self.buffered() + piece <= 2 * (self.sizes().max + piece),
    {
    }

    /// A stream with nothing fed.
    pub fn new(chunker: Chunker) -> (s: StreamChunker)
        requires
            chunker.wf(),
        ensures
            s.wf(),
            s.sizes() == chunker@,
            s.pending() == Seq::<u8>::empty(),
    {
        proof {
            sizing::lemma_ordered(chunker@);
        }
        StreamChunker { inner: Pending::new(chunker) }
    }

    /// Feed more input. The sink takes every chunk that the input settles, in
    /// order. What stays pending is shorter than `max_size`, and the buffer
    /// holds no more than twice that.
    pub fn push<S: ByteSink>(&mut self, data: &[u8], emit: &mut S)
        requires
            old(self).wf(),
            old(self).buffered() + data@.len() <= usize::MAX,
        ensures
            final(self).wf(),
            final(self).sizes() == old(self).sizes(),
            ({
                let seen = old(self).pending() + data@;
                &&& final(emit).received() == old(emit).received() + streaming::settled_bytes(
                    old(self).sizes(),
                    seen,
                )
                &&& final(self).pending() == streaming::unsettled(old(self).sizes(), seen)
            }),
            final(self).pending().len() < old(self).sizes().max,
            final(self).buffered() <= old(self).buffered() + data@.len(),
    {
        let ghost s = self.inner.sizes();
        let ghost before = emit.received();
        let ghost mut done: Seq<Seq<u8>> = Seq::empty();
        self.inner.extend(data);
        let ghost seen = self.inner.bytes();
        let ghost held = self.inner.buffered();
        proof {
            sizing::lemma_ordered(s);
            assert(before + done =~= before);
            assert(done + streaming::settled_bytes(s, seen) =~= streaming::settled_bytes(s, seen));
        }
        while self.inner.is_settled()
            invariant
                self.inner.wf(),
                self.inner.sizes() == s,
                s.ordered(),
                self.inner.buffered() == held,
                done + streaming::settled_bytes(s, self.inner.bytes()) == streaming::settled_bytes(
                    s,
                    seen,
                ),
                streaming::unsettled(s, self.inner.bytes()) == streaming::unsettled(s, seen),
                emit.received() == before + done,
            decreases self.inner.bytes().len(),
        {
            let ghost left = self.inner.bytes();
            let (cut, _) = self.inner.cut();
            proof {
                sizing::lemma_next_cut(s, left);
                streaming::lemma_settled_unfold(s, left, 0);
            }
            emit.emit(self.inner.front(cut));
            self.inner.advance(cut);
            proof {
                let c = left.take(cut as int);
                let after = streaming::settled_bytes(s, self.inner.bytes());
                assert(done.push(c) + after =~= done + (seq![c] + after));
                assert(before + done.push(c) =~= (before + done).push(c));
                done = done.push(c);
            }
        }
        proof {
            let left = self.inner.bytes();
            assert(streaming::settled_bytes(s, left) =~= Seq::empty());
            assert(done + Seq::<Seq<u8>>::empty() =~= done);
            assert(streaming::unsettled(s, left) =~= left);
        }
        self.inner.compact();
    }

    /// End of input: emit the remaining chunks (the final one is cut by the end
    /// of the input and may be shorter than `min_size`).
    pub fn finish<S: ByteSink>(self, emit: &mut S)
        requires
            self.wf(),
        ensures
            final(emit).received() == old(emit).received() + sizing::chunk_bytes(
                self.pending(),
                sizing::cuts(self.sizes(), self.pending()),
            ),
    {
        let ghost s = self.inner.sizes();
        let ghost data = self.inner.bytes();
        let ghost before = emit.received();
        let ghost whole = sizing::chunk_bytes(data, sizing::cuts(s, data));
        let ghost mut done: Seq<Seq<u8>> = Seq::empty();
        let mut inner = self.inner;
        proof {
            sizing::lemma_ordered(s);
            assert(done + whole =~= whole);
            assert(before + done =~= before);
        }
        while !inner.is_empty()
            invariant
                inner.wf(),
                inner.sizes() == s,
                s.ordered(),
                done + sizing::chunk_bytes(inner.bytes(), sizing::cuts(s, inner.bytes())) == whole,
                emit.received() == before + done,
            decreases inner.bytes().len(),
        {
            let ghost left = inner.bytes();
            let (cut, _) = inner.cut();
            proof {
                sizing::lemma_next_cut(s, left);
                sizing::lemma_chunks_unfold(s, left);
            }
            emit.emit(inner.front(cut));
            inner.advance(cut);
            proof {
                let c = left.take(cut as int);
                let after = sizing::chunk_bytes(inner.bytes(), sizing::cuts(s, inner.bytes()));
                assert(done.push(c) + after =~= done + (seq![c] + after));
                assert(before + done.push(c) =~= (before + done).push(c));
                done = done.push(c);
            }
        }
        proof {
            assert(sizing::chunk_bytes(inner.bytes(), sizing::cuts(s, inner.bytes()))
                =~= Seq::empty());
            assert(done + Seq::<Seq<u8>>::empty() =~= done);
        }
    }
}

} // verus!
