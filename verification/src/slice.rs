//! Chunking of in-memory data, chunk by chunk with the rolling state at each
//! cut.
use vstd::prelude::*;
use vstd::slice::slice_subrange;

use crate::chunker::Chunker;
use crate::sizing;
use crate::sizing::{Cut, Sizes};

verus! {

/// One chunk: where it begins, how long it is, and the rolling state at its
/// cut. The state is a property of the boundary, not a content fingerprint.
#[derive(Debug, Clone, Copy, PartialEq, Eq, Structural)]
pub struct Chunk {
    pub hash: u64,
    pub offset: usize,
    pub length: usize,
}

impl View for Chunk {
    type V = Cut;

    open spec fn view(&self) -> Cut {
        Cut { offset: self.offset as int, length: self.length as int, hash: self.hash }
    }
}

/// The chunks of a slice, handed out in order as [`Chunk`]s.
pub struct Xg16<'a> {
    config: Chunker,
    data: &'a [u8],
    offset: usize,
}

impl<'a> Xg16<'a> {
    /// The configuration is well-formed and the position lies in the data.
    pub open spec fn wf(self) -> bool {
        &&& self.sizes().valid()
        &&& self.config_ok()
        &&& 0 <= self.position() <= self.data().len() <= usize::MAX
    }

    /// The masks belong to the sizes.
    pub closed spec fn config_ok(self) -> bool {
        self.config.wf()
    }

    /// The sizes that chunks are cut by.
    pub closed spec fn sizes(self) -> Sizes {
        self.config@
    }

    /// The data.
    pub closed spec fn data(self) -> Seq<u8> {
        self.data@
    }

    /// How much of the data has been handed out.
    pub closed spec fn position(self) -> int {
        self.offset as int
    }

    /// The chunks of `data`, cut by the given sizes: powers of two with
    /// `min < avg < max`, and an average of at most 16 KiB.
    pub fn new(data: &'a [u8], min_size: usize, avg_size: usize, max_size: usize) -> (it: Xg16<'a>)
        requires
            (Sizes { min: min_size as int, avg: avg_size as int, max: max_size as int }).valid(),
        ensures
            it.wf(),
            it.sizes() == (Sizes {
                min: min_size as int,
                avg: avg_size as int,
                max: max_size as int,
            }),
            it.data() == data@,
            it.position() == 0,
    {
        assert(data.len() == data@.len());
        Xg16 { config: Chunker::new(min_size, avg_size, max_size), data, offset: 0 }
    }

    /// No cut falls before this size.
    pub fn min_size(&self) -> (n: usize)
        ensures
            n == self.sizes().min,
    {
        self.config.min_size()
    }

    /// The size at which the mask changes from hard to easy.
    pub fn avg_size(&self) -> (n: usize)
        ensures
            n == self.sizes().avg,
    {
        self.config.avg_size()
    }

    /// No chunk is longer than this size.
    pub fn max_size(&self) -> (n: usize)
        ensures
            n == self.sizes().max,
    {
        self.config.max_size()
    }

    /// The next chunk; nothing once all of the data has been handed out.
    pub fn next(&mut self) -> (chunk: Option<Chunk>)
        requires
            old(self).wf(),
        ensures
            final(self).wf(),
            final(self).sizes() == old(self).sizes(),
            final(self).data() == old(self).data(),
            match chunk {
                Some(c) => {
                    let rest = old(self).data().skip(old(self).position());
                    &&& old(self).position() < old(self).data().len()
                    &&& c.offset == old(self).position()
                    &&& c.length == old(self).sizes().next_cut(rest)
                    &&& c.hash == old(self).sizes().cut_hash(rest)
                    &&& final(self).position() == c.offset + c.length
                    &&& 0 < c.length
                },
                None => old(self).position() == old(self).data().len() && final(self).position()
                    == old(self).position(),
            },
    {
        if self.offset >= self.data.len() {
            return None;
        }
        let rest = slice_subrange(self.data, self.offset, self.data.len());
        let (length, hash) = self.config.cut(rest);
        proof {
            assert(rest@ =~= self.data@.skip(self.offset as int));
            sizing::lemma_ordered(self.config@);
            sizing::lemma_next_cut(self.config@, rest@);
        }
        let chunk = Chunk { hash, offset: self.offset, length };
        self.offset = self.offset + length;
        Some(chunk)
    }

    /// All chunks that are left.
    pub fn collect(self) -> (all: Vec<Chunk>)
        requires
            self.wf(),
        ensures
            all@.map_values(|c: Chunk| c@) == sizing::cuts_from(
                self.sizes(),
                self.data(),
                self.position(),
            ),
            all@.len() == sizing::cuts_from(self.sizes(), self.data(), self.position()).len(),
            forall|i: int|
                0 <= i < all@.len() ==> {
                    let c = sizing::cuts_from(self.sizes(), self.data(), self.position())[i];
                    &&& (#[trigger] all@[i]).offset == c.offset
                    &&& all@[i].length == c.length
                    &&& all@[i].hash == c.hash
                },
    {
        let ghost s = self.sizes();
        let ghost data = self.data();
        let ghost whole = sizing::cuts_from(s, data, self.position());
        let mut it = self;
        let mut all: Vec<Chunk> = Vec::new();
        proof {
            sizing::lemma_ordered(s);
            assert(all@.map_values(|c: Chunk| c@) =~= Seq::empty());
            assert(Seq::<Cut>::empty() + whole =~= whole);
        }
        loop
            invariant
                it.wf(),
                s.ordered(),
                it.sizes() == s,
                it.data() == data,
                all@.map_values(|c: Chunk| c@) + sizing::cuts_from(s, data, it.position()) == whole,
            ensures
                all@.map_values(|c: Chunk| c@) == whole,
            decreases data.len() - it.position(),
        {
            let ghost before = all@.map_values(|c: Chunk| c@);
            let ghost at = it.position();
            match it.next() {
                Some(chunk) => {
                    all.push(chunk);
                    proof {
                        sizing::lemma_next_cut(s, data.skip(at));
                        let after = sizing::cuts_from(s, data, it.position());
                        assert(all@.map_values(|c: Chunk| c@) =~= before.push(chunk@));
                        assert(before.push(chunk@) + after =~= before + (seq![chunk@] + after));
                    }
                },
                None => {
                    assert(before + Seq::<Cut>::empty() =~= before);
                    break;
                },
            }
        }
        proof {
            let views = all@.map_values(|c: Chunk| c@);
            assert(views.len() == all@.len());
            assert forall|i: int| 0 <= i < all@.len() implies (#[trigger] all@[i])@ == whole[i] by {
                assert(views[i] == all@[i]@);
            }
        }
        all
    }
}

} // verus!
