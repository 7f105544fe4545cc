//! The chunker: normalized sizing over the boundary search.
use vstd::arithmetic::logarithm::*;
use vstd::arithmetic::power2::*;
use vstd::prelude::*;
use vstd::slice::slice_subrange;
use vstd::std_specs::bits::*;

use crate::rolling;
use crate::scan::{scan, Scan};
use crate::sizing;
use crate::sizing::Sizes;

verus! {

/// Top `bits` of the 16-bit state.
pub fn top16(bits: u32) -> (mask: u64)
    requires
        bits <= 16,
    ensures
        mask == sizing::top_mask(bits as nat),
        mask == 0x1_0000 - pow2((16 - bits) as nat),
        mask <= 0xFFFF,
{
    let n: u32 = 16 - bits;
    proof {
        lemma2_to64();
        assert(n <= 16 ==> (0xFFFFu64 >> n) << n == 0x1_0000 - (1u64 << n) && (0xFFFFu64 >> n) << n
            <= 0xFFFF) by (bit_vector);
        vstd::bits::lemma_u64_shl_is_mul(1, n as u64);
    }
    (0xFFFFu64 >> n) << n
}

/// Tells whether `n` is a power of two.
fn is_power_of_two(n: usize) -> (r: bool)
    ensures
        r == sizing::is_power_of_two(n as int),
{
    let mut p: usize = 1;
    let ghost mut k: nat = 0;
    proof {
        lemma2_to64();
    }
    while p < n
        invariant
            0 < p,
            p == pow2(k),
            forall|j: nat| j < k ==> #[trigger] pow2(j) < n,
        decreases usize::MAX - p,
    {
        proof {
            lemma_pow2_unfold(k + 1);
        }
        if p > usize::MAX / 2 {
            proof {
                assert forall|j: nat| n != #[trigger] pow2(j) by {
                    if j > k + 1 {
                        lemma_pow2_strictly_increases(k + 1, j);
                    }
                }
            }
            return false;
        }
        p = p * 2;
        proof {
            k = k + 1;
        }
    }
    proof {
        if p != n {
            assert forall|j: nat| n != #[trigger] pow2(j) by {
                if j > k {
                    lemma_pow2_strictly_increases(k, j);
                }
            }
        }
    }
    p == n
}

/// Content-defined chunker. Cuts are byte-granular.
#[derive(Debug, Clone, Copy)]
pub struct Chunker {
    min_size: usize,
    avg_size: usize,
    max_size: usize,
    mask_hard: u64,
    mask_easy: u64,
}

impl View for Chunker {
    type V = Sizes;

    closed spec fn view(&self) -> Sizes {
        Sizes {
            min: self.min_size as int,
            avg: self.avg_size as int,
            max: self.max_size as int,
        }
    }
}

/// `f` is a boundary-search kernel: what it returns is the search's result.
pub open spec fn is_kernel<F: Fn(&[u8], u64, u64) -> Scan>(f: F) -> bool {
    forall|d: &[u8], h: u64, m: u64, r: Scan| #[trigger]
        f.ensures((d, h, m), r) ==> r == rolling::scan_result(d@, h, m)
}

impl Chunker {
    /// The sizes are valid and the masks belong to them.
    pub open spec fn wf(self) -> bool {
        &&& self@.valid()
        &&& self.masks_match()
    }

    /// The masks are those of the sizes.
    pub closed spec fn masks_match(self) -> bool {
        &&& self.mask_hard == self@.hard_mask() as u64
        &&& self.mask_easy == self@.easy_mask() as u64
    }

    /// Tells whether [`Chunker::new`] takes these sizes.
    pub fn valid_sizes(min_size: usize, avg_size: usize, max_size: usize) -> (r: bool)
        ensures
            r == (Sizes { min: min_size as int, avg: avg_size as int, max: max_size as int }).valid(),
    {
        is_power_of_two(min_size) && is_power_of_two(avg_size) && is_power_of_two(max_size)
            && min_size < avg_size && avg_size < max_size && avg_size <= 0x4000
    }

    /// A chunker for the given sizes: powers of two with `min < avg < max`, and
    /// an average of at most 16 KiB.
    pub fn new(min_size: usize, avg_size: usize, max_size: usize) -> (c: Chunker)
        requires
            (Sizes { min: min_size as int, avg: avg_size as int, max: max_size as int }).valid(),
        ensures
            c.wf(),
            c@ == (Sizes { min: min_size as int, avg: avg_size as int, max: max_size as int }),
    {
        let bits: u32 = (avg_size as u32).trailing_zeros();
        proof {
            lemma_avg_bits(avg_size as u32);
        }
        let easy_bits: u32 = if bits < 2 {
            0
        } else {
            bits - 2
        };
        Chunker {
            min_size,
            avg_size,
            max_size,
            mask_hard: top16(bits + 2),
            mask_easy: top16(easy_bits),
        }
    }
}

impl Chunker {
    /// 2 KiB / 8 KiB / 64 KiB.
    pub fn with_default_sizes() -> (c: Chunker)
        ensures
            c.wf(),
            c@ == (Sizes { min: 0x800, avg: 0x2000, max: 0x1_0000 }),
    {
        proof {
            lemma2_to64();
            assert(0x800 == pow2(11));
            assert(0x2000 == pow2(13));
            assert(0x1_0000 == pow2(16));
        }
        Chunker::new(2 * 1024, 8 * 1024, 64 * 1024)
    }

    /// No cut falls before this size.
    pub fn min_size(&self) -> (n: usize)
        ensures
            n == self@.min,
    {
        self.min_size
    }

    /// The size at which the mask changes from hard to easy.
    pub fn avg_size(&self) -> (n: usize)
        ensures
            n == self@.avg,
    {
        self.avg_size
    }

    /// No chunk is longer than this size.
    pub fn max_size(&self) -> (n: usize)
        ensures
            n == self@.max,
    {
        self.max_size
    }

    /// The chunks of `data`, one after the other.
    pub fn chunks<'a>(&self, data: &'a [u8]) -> (it: Chunks<'a>)
        requires
            self.wf(),
        ensures
            it.wf(),
            it.sizes() == self@,
            it.rest() == data@,
    {
        Chunks { chunker: *self, rest: data }
    }

    /// Absolute end offsets of every chunk.
    pub fn cut_points(&self, data: &[u8]) -> (ends: Vec<usize>)
        requires
            self.wf(),
        ensures
            ends@.map_values(|e: usize| e as int) == sizing::end_offsets(sizing::cuts(self@, data@)),
            ends@.len() == sizing::cuts(self@, data@).len(),
            forall|i: int|
                0 <= i < ends@.len() ==> #[trigger] ends@[i] == sizing::cuts(self@, data@)[i].offset
                    + sizing::cuts(self@, data@)[i].length,
    {
        let mut ends: Vec<usize> = Vec::new();
        let mut off: usize = 0;
        let ghost all = sizing::cuts(self@, data@);
        proof {
            sizing::lemma_ordered(self@);
            assert(all.skip(0) =~= all);
        }
        while off < data.len()
            invariant
                self.wf(),
                self@.ordered(),
                off <= data.len(),
                all == sizing::cuts(self@, data@),
                ends.len() <= all.len(),
                all.skip(ends.len() as int) == sizing::cuts_from(self@, data@, off as int),
                forall|i: int|
                    0 <= i < ends.len() ==> #[trigger] ends@[i] == all[i].offset + all[i].length,
            decreases data.len() - off,
        {
            let rest = slice_subrange(data, off, data.len());
            let cut: usize = self.next_cut(rest);
            proof {
                assert(rest@ =~= data@.skip(off as int));
                sizing::lemma_next_cut(self@, rest@);
                let tail = sizing::cuts_from(self@, data@, off as int);
                let next = sizing::cuts_from(self@, data@, off + cut);
                assert(tail =~= seq![tail[0]] + next);
                assert(all[ends.len() as int] == tail[0]);
                assert(all.skip(ends.len() + 1) =~= next) by {
                    assert(all.skip(ends.len() + 1) =~= all.skip(ends.len() as int).skip(1));
                    assert(tail.skip(1) =~= next);
                }
            }
            off = off + cut;
            ends.push(off);
        }
        proof {
            assert(all.skip(ends.len() as int).len() == 0);
            assert(ends@.map_values(|e: usize| e as int) =~= sizing::end_offsets(all));
        }
        ends
    }
}

/// The chunks of a slice, handed out in order.
pub struct Chunks<'a> {
    chunker: Chunker,
    rest: &'a [u8],
}

impl<'a> Chunks<'a> {
    /// The chunker is well-formed.
    pub closed spec fn wf(self) -> bool {
        self.chunker.wf()
    }

    /// The sizes that chunks are cut by.
    pub closed spec fn sizes(self) -> Sizes {
        self.chunker@
    }

    /// The bytes that have not been handed out.
    pub closed spec fn rest(self) -> Seq<u8> {
        self.rest@
    }

    /// The next chunk; nothing once all bytes have been handed out.
    pub fn next(&mut self) -> (chunk: Option<&'a [u8]>)
        requires
            old(self).wf(),
        ensures
            final(self).wf(),
            final(self).sizes() == old(self).sizes(),
            match chunk {
                Some(bytes) => {
                    let cut = old(self).sizes().next_cut(old(self).rest());
                    &&& old(self).rest().len() > 0
                    &&& bytes@ == old(self).rest().take(cut)
                    &&& final(self).rest() == old(self).rest().skip(cut)
                    &&& 0 < bytes@.len()
                },
                None => old(self).rest().len() == 0 && final(self).rest() == old(self).rest(),
            },
    {
        if self.rest.is_empty() {
            return None;
        }
        let cut: usize = self.chunker.next_cut(self.rest);
        proof {
            sizing::lemma_ordered(self.chunker@);
            sizing::lemma_next_cut(self.chunker@, self.rest@);
        }
        let (chunk, rest) = self.rest.split_at(cut);
        proof {
            assert(chunk@ =~= self.rest@.take(cut as int));
            assert(rest@ =~= self.rest@.skip(cut as int));
        }
        self.rest = rest;
        Some(chunk)
    }

    /// All chunks that are left.
    pub fn collect(self) -> (all: Vec<&'a [u8]>)
        requires
            self.wf(),
        ensures
            all@.map_values(|c: &'a [u8]| c@) == sizing::chunk_bytes(
                self.rest(),
                sizing::cuts(self.sizes(), self.rest()),
            ),
            all@.len() == sizing::cuts(self.sizes(), self.rest()).len(),
            forall|i: int|
                0 <= i < all@.len() ==> (#[trigger] all@[i])@ == self.rest().subrange(
                    sizing::cuts(self.sizes(), self.rest())[i].offset,
                    sizing::cuts(self.sizes(), self.rest())[i].offset + sizing::cuts(
                        self.sizes(),
                        self.rest(),
                    )[i].length,
                ),
    {
        let ghost s = self.sizes();
        let ghost data = self.rest();
        let ghost whole = sizing::chunk_bytes(data, sizing::cuts(s, data));
        let mut it = self;
        let mut all: Vec<&'a [u8]> = Vec::new();
        proof {
            sizing::lemma_ordered(s);
            assert(Seq::empty() + whole =~= whole);
            assert(all@.map_values(|c: &'a [u8]| c@) =~= Seq::empty());
        }
        loop
            invariant
                it.wf(),
                s.ordered(),
                it.sizes() == s,
                whole == sizing::chunk_bytes(data, sizing::cuts(s, data)),
                all@.map_values(|c: &'a [u8]| c@) + sizing::chunk_bytes(
                    it.rest(),
                    sizing::cuts(s, it.rest()),
                ) == whole,
            ensures
                all@.map_values(|c: &'a [u8]| c@) == whole,
            decreases it.rest().len(),
        {
            let ghost rest = it.rest();
            let ghost before = all@.map_values(|c: &'a [u8]| c@);
            match it.next() {
                Some(chunk) => {
                    all.push(chunk);
                    proof {
                        sizing::lemma_next_cut(s, rest);
                        sizing::lemma_chunks_unfold(s, rest);
                        let after = sizing::chunk_bytes(it.rest(), sizing::cuts(s, it.rest()));
                        assert(all@.map_values(|c: &'a [u8]| c@) =~= before.push(chunk@));
                        assert(before.push(chunk@) + after =~= before + (seq![chunk@] + after));
                    }
                },
                None => {
                    proof {
                        assert(before + Seq::<Seq<u8>>::empty() =~= before);
                        assert(sizing::chunk_bytes(rest, sizing::cuts(s, rest)) =~= Seq::empty());
                    }
                    break;
                },
            }
        }
        proof {
            let views = all@.map_values(|c: &'a [u8]| c@);
            assert forall|i: int| 0 <= i < all@.len() implies (#[trigger] all@[i])@
                == whole[i] by {
                assert(views[i] == all@[i]@);
            }
            assert(views.len() == all@.len());
        }
        all
    }
}

/// What the two boundary searches of one chunk hand to the kernel, and what
/// comes of the kernel's answers.
impl Chunker {
    /// Length at which the search under the hard mask ends.
    pub open spec fn normal_end(self, n: int) -> int {
        if n < self@.avg {
            n
        } else {
            self@.avg
        }
    }

    /// `f` may answer `r` when asked about the bytes up to the average.
    pub open spec fn asked_hard<F: Fn(&[u8], u64, u64) -> Scan>(
        self,
        data: Seq<u8>,
        f: F,
        d: &[u8],
        r: Scan,
    ) -> bool {
        &&& d@ == data.subrange(self@.min, self.normal_end(data.len() as int))
        &&& f.ensures((d, 0u64, self@.hard_mask() as u64), r)
    }

    /// `f` may answer `r` when asked, with state `h`, about the bytes past the
    /// average.
    pub open spec fn asked_easy<F: Fn(&[u8], u64, u64) -> Scan>(
        self,
        data: Seq<u8>,
        f: F,
        h: u64,
        d: &[u8],
        r: Scan,
    ) -> bool {
        &&& d@ == data.subrange(
            self.normal_end(data.len() as int),
            self@.limit(data.len() as int),
        )
        &&& f.ensures((d, h, self@.easy_mask() as u64), r)
    }

    /// `(len, hash)` is what the answers of `f` come to: nothing is asked about
    /// an input of at most `min` bytes; a cut that `f` reports is counted from
    /// where the search began; where it reports none, the limit is the cut.
    pub open spec fn cut_by<F: Fn(&[u8], u64, u64) -> Scan>(
        self,
        data: Seq<u8>,
        f: F,
        len: usize,
        hash: u64,
    ) -> bool {
        if data.len() <= self@.min {
            len == data.len() && hash == 0
        } else {
            exists|d1: &[u8], r1: Scan| #[trigger]
                self.asked_hard(data, f, d1, r1) && match r1.0 {
                    Some(k) => len == self@.min + k && hash == r1.1,
                    None => exists|d2: &[u8], r2: Scan| #[trigger]
                        self.asked_easy(data, f, r1.1, d2, r2) && hash == r2.1 && match r2.0 {
                            Some(k) => len == self.normal_end(data.len() as int) + k,
                            None => len == self@.limit(data.len() as int),
                        },
                }
        }
    }

    /// `f` takes what it will be asked, and no answer of it leads to a length
    /// that does not fit in `usize`. Past the average it is asked with the state
    /// that it answered with before, and only where it found no cut.
    pub open spec fn answerable<F: Fn(&[u8], u64, u64) -> Scan>(self, data: Seq<u8>, f: F) -> bool {
        data.len() > self@.min ==> {
            &&& forall|d: &[u8]|
                d@ == data.subrange(self@.min, self.normal_end(data.len() as int))
                    ==> #[trigger] f.requires((d, 0u64, self@.hard_mask() as u64))
            &&& forall|d1: &[u8], r1: Scan, d: &[u8]|
                #[trigger] self.asked_hard(data, f, d1, r1) && r1.0 is None && d@ == data.subrange(
                    self.normal_end(data.len() as int),
                    self@.limit(data.len() as int),
                ) ==> #[trigger] f.requires((d, r1.1, self@.easy_mask() as u64))
            &&& forall|d: &[u8], r: Scan| #[trigger]
                self.asked_hard(data, f, d, r) ==> match r.0 {
                    Some(k) => self@.min + k <= usize::MAX,
                    None => true,
                }
            &&& forall|d1: &[u8], r1: Scan, d: &[u8], r: Scan|
                #[trigger] self.asked_hard(data, f, d1, r1) && r1.0 is None
                    && #[trigger] self.asked_easy(data, f, r1.1, d, r) ==> match r.0 {
                    Some(k) => self.normal_end(data.len() as int) + k <= usize::MAX,
                    None => true,
                }
        }
    }

    /// Length of the chunk that starts `data` and the rolling state at its
    /// cut, with the supplied kernel.
    pub fn cut_with(&self, data: &[u8], scan: impl Fn(&[u8], u64, u64) -> Scan) -> (r: (usize, u64))
        requires
            self.wf(),
            self.answerable(data@, scan),
        ensures
            self.cut_by(data@, scan, r.0, r.1),
            is_kernel(scan) ==> r.0 == self@.next_cut(data@) && r.1 == self@.cut_hash(data@),
    {
        let n: usize = data.len();
        proof {
            sizing::lemma_ordered(self@);
        }
        if n <= self.min_size {
            proof {
                sizing::lemma_cut_unique(self@, data@, n as int);
            }
            return (n, 0);
        }
        let normal_end: usize = if self.avg_size < n {
            self.avg_size
        } else {
            n
        };
        let head = slice_subrange(data, self.min_size, normal_end);
        let (found, h) = scan(head, 0, self.mask_hard);
        let ghost r1 = (found, h);
        assert(self.asked_hard(data@, scan, head, r1));
        if let Some(len) = found {
            proof {
                if is_kernel(scan) {
                    assert(r1 == rolling::scan_result(head@, 0, self.mask_hard));
                    sizing::lemma_hard_cut(self@, data@, len as int);
                }
            }
            return (self.min_size + len, h);
        }
        let end: usize = if self.max_size < n {
            self.max_size
        } else {
            n
        };
        let tail = slice_subrange(data, normal_end, end);
        let (found, g) = scan(tail, h, self.mask_easy);
        let ghost r2 = (found, g);
        assert(self.asked_easy(data@, scan, h, tail, r2));
        proof {
            if is_kernel(scan) {
                assert(r1 == rolling::scan_result(head@, 0, self.mask_hard));
                assert(r2 == rolling::scan_result(tail@, h, self.mask_easy));
                sizing::lemma_easy_cut(self@, data@);
            }
        }
        if let Some(len) = found {
            return (normal_end + len, g);
        }
        (end, g)
    }

    /// Length of the next chunk starting at `data[0]`, with the supplied
    /// kernel.
    pub fn next_cut_with(&self, data: &[u8], scan: impl Fn(&[u8], u64, u64) -> Scan) -> (len: usize)
        requires
            self.wf(),
            self.answerable(data@, scan),
        ensures
            exists|hash: u64| self.cut_by(data@, scan, len, hash),
            is_kernel(scan) ==> len == self@.next_cut(data@),
    {
        let (len, hash) = self.cut_with(data, scan);
        assert(self.cut_by(data@, scan, len, hash));
        len
    }

    /// Length of the next chunk, using the best kernel.
    pub fn next_cut(&self, data: &[u8]) -> (len: usize)
        requires
            self.wf(),
        ensures
            len == self@.next_cut(data@),
    {
        proof {
            assert(data.len() == data@.len());
            self.lemma_kernel_answers(data@, scan);
        }
        self.next_cut_with(data, scan)
    }

    /// Length of the next chunk and the rolling state at its cut, using the
    /// best kernel.
    pub fn cut(&self, data: &[u8]) -> (r: (usize, u64))
        requires
            self.wf(),
        ensures
            r.0 == self@.next_cut(data@),
            r.1 == self@.cut_hash(data@),
    {
        proof {
            assert(data.len() == data@.len());
            self.lemma_kernel_answers(data@, scan);
        }
        self.cut_with(data, scan)
    }

    /// A kernel that takes everything can be asked about any input.
    pub proof fn lemma_kernel_answers<F: Fn(&[u8], u64, u64) -> Scan>(self, data: Seq<u8>, f: F)
        requires
            self.wf(),
            data.len() <= usize::MAX,
            is_kernel(f),
            forall|d: &[u8], h: u64, m: u64| #[trigger] f.requires((d, h, m)),
        ensures
            self.answerable(data, f),
    {
        sizing::lemma_ordered(self@);
        assert forall|d: &[u8], r: Scan| data.len() > self@.min && #[trigger] self.asked_hard(
            data,
            f,
            d,
            r,
        ) implies match r.0 {
            Some(k) => self@.min + k <= usize::MAX,
            None => true,
        } by {
            rolling::lemma_first_cut(0, d@, self@.hard_mask());
        }
        assert forall|h: u64, d: &[u8], r: Scan|
            data.len() > self@.min && #[trigger] self.asked_easy(
            data,
            f,
            h,
            d,
            r,
        ) implies match r.0 {
            Some(k) => self.normal_end(data.len() as int) + k <= usize::MAX,
            None => true,
        } by {
            rolling::lemma_first_cut(h as u16, d@, self@.easy_mask());
        }
    }
}

/// The trailing zeros of an average count its bits.
proof fn lemma_avg_bits(avg: u32)
    requires
        sizing::is_power_of_two(avg as int),
        avg <= 0x4000,
    ensures
        avg.trailing_zeros() == log(2, avg as int),
        avg.trailing_zeros() <= 14,
{
    axiom_u32_trailing_zeros(avg);
    let z = avg.trailing_zeros();
    let k = choose|k: nat| avg == #[trigger] pow2(k);
    lemma2_to64();
    if k > 14 {
        lemma_pow2_strictly_increases(14, k);
    }
    lemma_log_pow(2, k);
    lemma_pow2(k);
    let kk = k as u32;
    vstd::bits::lemma_u32_shl_is_mul(1, kk);
    assert(z == kk) by {
        let zz = z as u32;
        assert((1u32 << kk) >> kk & 1 == 1) by (bit_vector)
            requires
                kk <= 14,
        ;
        assert(zz < kk ==> ((1u32 << kk) >> zz) & 1 == 0) by (bit_vector)
            requires
                kk <= 14,
        ;
    }
}

} // verus!
