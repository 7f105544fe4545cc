//! The bytes of a stream that have been fed and not been emitted.
use vstd::prelude::*;
use vstd::slice::slice_subrange;

use crate::chunker::Chunker;
use crate::sizing::Sizes;

verus! {

/// A chunker with the bytes that it has still to cut. Bytes that have been
/// taken off stay in the buffer until it is compacted.
pub struct Pending {
    chunker: Chunker,
    buf: Vec<u8>,
    start: usize,
}

impl Pending {
    /// The chunker is well-formed, and what is pending lies in the buffer.
    pub open spec fn wf(self) -> bool {
        &&& self.sizes().valid()
        &&& self.parts_ok()
        &&& self.bytes().len() <= self.buffered() <= usize::MAX
    }

    /// The parts fit together.
    pub closed spec fn parts_ok(self) -> bool {
        &&& self.chunker.wf()
        &&& self.start <= self.buf.len()
    }

    /// The sizes that chunks are cut by.
    pub closed spec fn sizes(self) -> Sizes {
        self.chunker@
    }

    /// The bytes that are pending.
    pub closed spec fn bytes(self) -> Seq<u8> {
        self.buf@.skip(self.start as int)
    }

    /// The number of bytes that the buffer holds.
    pub closed spec fn buffered(self) -> nat {
        self.buf@.len()
    }

    /// Law: what is counted as buffered is all that the buffer holds, and what is
    /// pending is the end of it.
    proof fn lemma_representation(self)
        ensures
            self.buffered() == self.buf@.len(),
            self.start <= self.buf@.len() ==> self.bytes() == self.buf@.subrange(
                self.start as int,
                self.buf@.len() as int,
            ),
            self.sizes() == self.chunker@,
    {
        assert(self.start <= self.buf@.len() ==> self.buf@.skip(self.start as int)
            =~= self.buf@.subrange(self.start as int, self.buf@.len() as int));
    }

    /// Nothing pending.
    pub fn new(chunker: Chunker) -> (p: Pending)
        requires
            chunker.wf(),
        ensures
            p.wf(),
            p.sizes() == chunker@,
            p.bytes() == Seq::<u8>::empty(),
            p.buffered() == 0,
    {
        let p = Pending { chunker, buf: Vec::new(), start: 0 };
        assert(p.bytes() =~= Seq::empty());
        p
    }

    /// The chunker.
    pub fn chunker(&self) -> (c: Chunker)
        ensures
            c@ == self.sizes(),
            self.wf() ==> c.wf(),
    {
        self.chunker
    }

    /// Adds bytes.
    pub fn extend(&mut self, data: &[u8])
        requires
            old(self).wf(),
            old(self).buffered() + data@.len() <= usize::MAX,
        ensures
            final(self).wf(),
            final(self).sizes() == old(self).sizes(),
            final(self).bytes() == old(self).bytes() + data@,
            final(self).buffered() == old(self).buffered() + data@.len(),
    {
        let ghost before = self.bytes();
        self.buf.extend_from_slice(data);
        assert(self.bytes() =~= before + data@);
    }

    /// Tells whether `max` bytes are pending: the next cut can then not depend
    /// on bytes to come.
    pub fn is_settled(&self) -> (r: bool)
        requires
            self.wf(),
        ensures
            r == (self.bytes().len() >= self.sizes().max),
    {
        self.buf.len() - self.start >= self.chunker.max_size()
    }

    /// Tells whether nothing is pending.
    pub fn is_empty(&self) -> (r: bool)
        requires
            self.wf(),
        ensures
            r == (self.bytes().len() == 0),
    {
        self.start == self.buf.len()
    }

    /// Length of the next chunk and the rolling state at its cut.
    pub fn cut(&self) -> (r: (usize, u64))
        requires
            self.wf(),
        ensures
            r.0 == self.sizes().next_cut(self.bytes()),
            r.1 == self.sizes().cut_hash(self.bytes()),
    {
        let rest = slice_subrange(self.buf.as_slice(), self.start, self.buf.len());
        assert(rest@ =~= self.bytes());
        self.chunker.cut(rest)
    }

    /// The first `n` bytes that are pending.
    pub fn front(&self, n: usize) -> (r: &[u8])
        requires
            self.wf(),
            n <= self.bytes().len(),
        ensures
            r@ == self.bytes().take(n as int),
    {
        let r = slice_subrange(self.buf.as_slice(), self.start, self.start + n);
        assert(r@ =~= self.bytes().take(n as int));
        r
    }

    /// Takes the first `n` bytes off.
    pub fn advance(&mut self, n: usize)
        requires
            old(self).wf(),
            n <= old(self).bytes().len(),
        ensures
            final(self).wf(),
            final(self).sizes() == old(self).sizes(),
            final(self).bytes() == old(self).bytes().skip(n as int),
            final(self).buffered() == old(self).buffered(),
    {
        let ghost before = self.bytes();
        self.start = self.start + n;
        assert(self.bytes() =~= before.skip(n as int));
    }

    /// Drops the bytes that have been taken off, where they are half of the
    /// buffer or more.
    pub fn compact(&mut self)
        requires
            old(self).wf(),
        ensures
            final(self).wf(),
            final(self).sizes() == old(self).sizes(),
            final(self).bytes() == old(self).bytes(),
            final(self).buffered() <= old(self).buffered(),
            final(self).buffered() <= 2 * final(self).bytes().len(),
    {
        let ghost before = self.bytes();
        if self.start > 0 && self.start >= self.buf.len() / 2 {
            let rest = self.buf.split_off(self.start);
            self.buf = rest;
            self.start = 0;
            assert(self.bytes() =~= before);
        }
    }
}

} // verus!
