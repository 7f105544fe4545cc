//! Boundary-search kernels. [`scan_ref`] is the format definition; every
//! other kernel is proved to return what it returns.
use vstd::prelude::*;
use vstd::slice::slice_subrange;

use crate::rolling;
use crate::table;

pub mod avx2;
pub mod portable;
pub mod vector;

pub use avx2::scan_avx2;
pub use portable::scan_portable;

verus! {

/// What a boundary search returns: the length up to and with the first firing
/// byte, if there is one, and the state there or at the end.
pub type Scan = (Option<usize>, u64);

/// Reference kernel: the format definition.
pub fn scan_ref(data: &[u8], h: u64, mask: u64) -> (r: Scan)
    ensures
        r == rolling::scan_result(data@, h, mask),
{
    let mut s: u16 = h as u16;
    let ghost h0: u16 = s;
    let m: u16 = mask as u16;
    let mut i: usize = 0;
    proof {
        assert(data@.take(0) =~= Seq::empty());
    }
    while i < data.len()
        invariant
            i <= data.len(),
            m == mask as u16,
            h0 == h as u16,
            s == rolling::state_after(h0, data@.take(i as int)),
            forall|j: int| 1 <= j <= i ==> !rolling::fires(h0, data@, m, j),
        decreases data.len() - i,
    {
        s = (s << 1) ^ table::entry(data[i]);
        proof {
            let next = data@.take(i + 1);
            assert(next.drop_last() =~= data@.take(i as int));
            assert(s == rolling::state_after(h0, next));
        }
        if s & m == 0 {
            proof {
                assert(rolling::fires(h0, data@, m, i + 1));
                rolling::lemma_first_cut_unique(h0, data@, m, i + 1);
            }
            return (Some(i + 1), s as u64);
        }
        i = i + 1;
    }
    proof {
        assert(data@.take(i as int) =~= data@);
        rolling::lemma_first_cut(h0, data@, m);
    }
    (None, s as u64)
}

/// A boundary-search kernel, by name.
#[derive(Debug, Clone, Copy, PartialEq, Eq, Structural)]
pub enum ScanFn {
    /// [`scan_ref`].
    Reference,
    /// [`scan_portable`].
    Portable,
    /// [`scan_avx2`].
    Avx2,
}

impl ScanFn {
    /// Runs the kernel.
    pub fn scan(&self, data: &[u8], h: u64, mask: u64) -> (r: Scan)
        ensures
            r == rolling::scan_result(data@, h, mask),
    {
        match self {
            ScanFn::Reference => scan_ref(data, h, mask),
            ScanFn::Portable => scan_portable(data, h, mask),
            ScanFn::Avx2 => scan_avx2(data, h, mask),
        }
    }
}

/// Every kernel available on a machine, named, the reference first. `avx2` tells
/// whether the machine has AVX2: the kernel that is laid out for its registers
/// is listed only there.
pub fn kernels(avx2: bool) -> (ks: Vec<(&'static str, ScanFn)>)
    ensures
        ks@.len() == if avx2 {
            3int
        } else {
            2int
        },
        ks@[0].0@ == "ref"@ && ks@[0].1 == ScanFn::Reference,
        ks@[1].0@ == "portable"@ && ks@[1].1 == ScanFn::Portable,
        avx2 ==> ks@[2].0@ == "avx2"@ && ks@[2].1 == ScanFn::Avx2,
{
    let mut ks: Vec<(&'static str, ScanFn)> = vec![
        ("ref", ScanFn::Reference),
        ("portable", ScanFn::Portable),
    ];
    if avx2 {
        ks.push(("avx2", ScanFn::Avx2));
    }
    ks
}

/// The kernel that the chunkers search with. The lanes of the vector kernel are
/// walked one by one here, so the portable kernel is the faster of the two.
pub fn scan(data: &[u8], h: u64, mask: u64) -> (r: Scan)
    ensures
        r == rolling::scan_result(data@, h, mask),
{
    scan_portable(data, h, mask)
}

/// One 16-byte block evaluated in a single step: the only part of the block
/// algorithm that differs from kernel to kernel.
///
/// A kernel's `block` receives the block bytes and the carried state and
/// returns the 16 states of the block, a fire indicator, and the next carry.
pub trait Kernel: Sized {
    /// Carried state, in the form that the kernel keeps it in.
    type Carry: Copy;

    /// The 16 states of a block.
    type Lanes: Copy;

    /// Which of the 16 positions of a block fire.
    type Hits: Copy;

    /// `c` is a carry that the kernel made.
    spec fn carry_ok(c: Self::Carry) -> bool;

    /// The state that `c` carries.
    spec fn carry_state(c: Self::Carry) -> u16;

    /// The states in `l`, by position.
    spec fn lane_state(l: Self::Lanes, j: int) -> u16;

    /// `f` is a fire indicator that the kernel made.
    spec fn hits_ok(f: Self::Hits) -> bool;

    /// Position `j` fires.
    spec fn is_hit(f: Self::Hits, j: int) -> bool;

    /// Puts a state into carried form.
    fn init(h: u16) -> (c: Self::Carry)
        ensures
            Self::carry_ok(c),
            Self::carry_state(c) == h,
    ;

    /// Reads the carried state.
    fn carry_value(c: Self::Carry) -> (h: u16)
        requires
            Self::carry_ok(c),
        ensures
            h == Self::carry_state(c),
    ;

    /// Evaluates the 16 positions of `blk`, from the carried state.
    fn block(blk: &[u8; 16], carry: Self::Carry, mask: u16) -> (r: (
        Self::Lanes,
        Self::Hits,
        Self::Carry,
    ))
        requires
            Self::carry_ok(carry),
        ensures
            forall|j: int|
                0 <= j < 16 ==> #[trigger] Self::lane_state(r.0, j) == rolling::state_after(
                    Self::carry_state(carry),
                    blk@.take(j + 1),
                ),
            Self::hits_ok(r.1),
            forall|j: int|
                0 <= j < 16 ==> (#[trigger] Self::is_hit(r.1, j) <==> Self::lane_state(r.0, j)
                    & mask == 0),
            Self::carry_ok(r.2),
            Self::carry_state(r.2) == rolling::state_after(Self::carry_state(carry), blk@),
    ;

    /// Did either of two blocks fire? One branch for two blocks.
    fn any(a: Self::Hits, b: Self::Hits) -> (r: bool)
        requires
            Self::hits_ok(a),
            Self::hits_ok(b),
        ensures
            r <==> (exists|j: int| 0 <= j < 16 && #[trigger] Self::is_hit(a, j)) || (exists|j: int|
                0 <= j < 16 && #[trigger] Self::is_hit(b, j)),
    ;

    /// The first firing position, if any.
    fn first(h: Self::Hits) -> (r: Option<usize>)
        requires
            Self::hits_ok(h),
        ensures
            match r {
                Some(i) => i < 16 && Self::is_hit(h, i as int) && (forall|j: int|
                    0 <= j < i ==> !#[trigger] Self::is_hit(h, j)),
                None => forall|j: int| 0 <= j < 16 ==> !#[trigger] Self::is_hit(h, j),
            },
    ;

    /// Reads one state.
    fn lane(l: Self::Lanes, i: usize) -> (h: u16)
        requires
            i < 16,
        ensures
            h == Self::lane_state(l, i as int),
    ;
}

/// The 16 bytes of `data` from `i` on.
fn block_at(data: &[u8], i: usize) -> (blk: [u8; 16])
    requires
        i + 16 <= data.len(),
    ensures
        blk@ == data@.subrange(i as int, i + 16),
{
    let mut blk = [0u8; 16];
    let mut j: usize = 0;
    while j < 16
        invariant
            j <= 16,
            i + 16 <= data.len(),
            forall|k: int| 0 <= k < j ==> blk@[k] == data@[i + k],
        decreases 16 - j,
    {
        blk[j] = data[i + j];
        j = j + 1;
    }
    blk
}

/// The states inside a block at `i` are the states of the whole input there.
proof fn lemma_block_states(h: u16, data: Seq<u8>, i: int, blk: Seq<u8>)
    requires
        0 <= i,
        i + 16 <= data.len(),
        blk == data.subrange(i, i + 16),
    ensures
        forall|k: int|
            0 <= k <= 16 ==> rolling::state_after(
                rolling::state_after(h, data.take(i)),
                #[trigger] blk.take(k),
            ) == rolling::state_after(h, data.take(i + k)),
        rolling::state_after(rolling::state_after(h, data.take(i)), blk) == rolling::state_after(
            h,
            data.take(i + 16),
        ),
{
    assert forall|k: int| 0 <= k <= 16 implies rolling::state_after(
        rolling::state_after(h, data.take(i)),
        #[trigger] blk.take(k),
    ) == rolling::state_after(h, data.take(i + k)) by {
        rolling::lemma_state_resume(h, data, i, k);
        assert(blk.take(k) =~= data.skip(i).take(k));
    }
    assert(blk.take(16) =~= blk);
}

/// Turns a block's fire indicator into a cut: the length up to and with the
/// first firing position of the block at `i`, and the state there.
fn resolve<K: Kernel>(i: usize, lanes: K::Lanes, hits: K::Hits) -> (r: Option<(usize, u64)>)
    requires
        i + 16 <= usize::MAX,
        K::hits_ok(hits),
    ensures
        match r {
            Some((pos, h)) => {
                &&& i < pos <= i + 16
                &&& K::is_hit(hits, pos - i - 1)
                &&& forall|j: int| 0 <= j < pos - i - 1 ==> !#[trigger] K::is_hit(hits, j)
                &&& h == K::lane_state(lanes, pos - i - 1)
            },
            None => forall|j: int| 0 <= j < 16 ==> !#[trigger] K::is_hit(hits, j),
        },
{
    match K::first(hits) {
        Some(lane) => Some((i + lane + 1, K::lane(lanes, lane) as u64)),
        None => None,
    }
}

/// The shared algorithm: block loop with two-block unroll, carry plumbing,
/// fire resolution, scalar tail. Everything except the per-block math lives
/// here, once.
pub fn drive<K: Kernel>(data: &[u8], h0: u64, mask: u64) -> (r: Scan)
    ensures
        r == rolling::scan_result(data@, h0, mask),
{
    let m: u16 = mask as u16;
    let ghost g: u16 = h0 as u16;
    let mut carry = K::init(h0 as u16);
    let mut i: usize = 0;
    proof {
        assert(data@.take(0) =~= Seq::empty());
    }
    while data.len() - i >= 32
        invariant
            i <= data.len(),
            g == h0 as u16,
            m == mask as u16,
            K::carry_ok(carry),
            K::carry_state(carry) == rolling::state_after(g, data@.take(i as int)),
            forall|j: int| 1 <= j <= i ==> !rolling::fires(g, data@, m, j),
        decreases data.len() - i,
    {
        let b1 = block_at(data, i);
        let b2 = block_at(data, i + 16);
        let (l1, f1, c1) = K::block(&b1, carry, m);
        let (l2, f2, c2) = K::block(&b2, c1, m);
        proof {
            lemma_block_states(g, data@, i as int, b1@);
            lemma_block_states(g, data@, i + 16, b2@);
            lemma_hits::<K>(g, data@, m, i as int, b1@, l1, f1);
            lemma_hits::<K>(g, data@, m, i + 16, b2@, l2, f2);
        }
        if K::any(f1, f2) {
            if let Some((pos, h)) = resolve::<K>(i, l1, f1) {
                proof {
                    lemma_block_cut::<K>(g, data@, m, i as int, pos as int, f1);
                }
                return (Some(pos), h);
            }
            proof {
                assert forall|j: int| 1 <= j <= i + 16 implies !rolling::fires(g, data@, m, j) by {
                    if j > i {
                        assert(!K::is_hit(f1, j - i - 1));
                    }
                }
            }
            let second = resolve::<K>(i + 16, l2, f2);
            assert(second is Some);
            let (pos, h) = second.unwrap();
            proof {
                lemma_block_cut::<K>(g, data@, m, i + 16, pos as int, f2);
            }
            return (Some(pos), h);
        }
        proof {
            assert forall|j: int| 1 <= j <= i + 32 implies !rolling::fires(g, data@, m, j) by {
                if i < j <= i + 16 {
                    assert(!K::is_hit(f1, j - i - 1));
                } else if i + 16 < j {
                    assert(!K::is_hit(f2, j - (i + 16) - 1));
                }
            }
        }
        carry = c2;
        i = i + 32;
    }
    if data.len() - i >= 16 {
        let b = block_at(data, i);
        let (l, f, c) = K::block(&b, carry, m);
        proof {
            lemma_block_states(g, data@, i as int, b@);
            lemma_hits::<K>(g, data@, m, i as int, b@, l, f);
        }
        if let Some((pos, h)) = resolve::<K>(i, l, f) {
            proof {
                lemma_block_cut::<K>(g, data@, m, i as int, pos as int, f);
            }
            return (Some(pos), h);
        }
        proof {
            assert forall|j: int| 1 <= j <= i + 16 implies !rolling::fires(g, data@, m, j) by {
                if j > i {
                    assert(!K::is_hit(f, j - i - 1));
                }
            }
        }
        carry = c;
        i = i + 16;
    }
    let tail = slice_subrange(data, i, data.len());
    let (found, hh) = scan_ref(tail, K::carry_value(carry) as u64, mask);
    proof {
        assert(tail@ =~= data@.skip(i as int));
        rolling::lemma_scan_resume(g, data@, m, i as int);
        rolling::lemma_first_cut(K::carry_state(carry), tail@, m);
        if let Some(k) = rolling::first_cut(K::carry_state(carry), tail@, m) {
            rolling::lemma_state_resume(g, data@, i as int, k);
        }
    }
    match found {
        Some(x) => (Some(i + x), hh),
        None => (None, hh),
    }
}

/// A lane of the block at `i` fires exactly where the whole input does.
proof fn lemma_hits<K: Kernel>(
    g: u16,
    data: Seq<u8>,
    m: u16,
    i: int,
    blk: Seq<u8>,
    lanes: K::Lanes,
    hits: K::Hits,
)
    requires
        0 <= i,
        i + 16 <= data.len(),
        blk == data.subrange(i, i + 16),
        forall|j: int|
            0 <= j < 16 ==> #[trigger] K::lane_state(lanes, j) == rolling::state_after(
                rolling::state_after(g, data.take(i)),
                blk.take(j + 1),
            ),
        forall|j: int|
            0 <= j < 16 ==> (#[trigger] K::is_hit(hits, j) <==> K::lane_state(lanes, j) & m == 0),
    ensures
        forall|j: int|
            0 <= j < 16 ==> #[trigger] K::lane_state(lanes, j) == rolling::state_after(
                g,
                data.take(i + j + 1),
            ),
        forall|j: int|
            0 <= j < 16 ==> (#[trigger] K::is_hit(hits, j) <==> rolling::fires(
                g,
                data,
                m,
                i + j + 1,
            )),
{
    lemma_block_states(g, data, i, blk);
    assert forall|j: int| 0 <= j < 16 implies #[trigger] K::lane_state(lanes, j)
        == rolling::state_after(g, data.take(i + j + 1)) by {
        let t = blk.take(j + 1);
        assert(i + (j + 1) == i + j + 1);
    }
}

/// What `resolve` finds in the first block that fires is the first cut.
proof fn lemma_block_cut<K: Kernel>(
    g: u16,
    data: Seq<u8>,
    m: u16,
    i: int,
    pos: int,
    hits: K::Hits,
)
    requires
        0 <= i < pos <= i + 16,
        i + 16 <= data.len(),
        forall|j: int|
            0 <= j < 16 ==> (#[trigger] K::is_hit(hits, j) <==> rolling::fires(
                g,
                data,
                m,
                i + j + 1,
            )),
        K::is_hit(hits, pos - i - 1),
        forall|j: int| 0 <= j < pos - i - 1 ==> !#[trigger] K::is_hit(hits, j),
        forall|j: int| 1 <= j <= i ==> !rolling::fires(g, data, m, j),
    ensures
        rolling::first_cut(g, data, m) == Some(pos),
{
    assert forall|j: int| 1 <= j < pos implies !rolling::fires(g, data, m, j) by {
        if j > i {
            assert(!K::is_hit(hits, j - i - 1));
        }
    }
    rolling::lemma_first_cut_unique(g, data, m, pos);
}

} // verus!
