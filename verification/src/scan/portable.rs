//! Portable block kernel: a parallel prefix over the materialized states.
use vstd::prelude::*;
use vstd::std_specs::bits::axiom_u16_trailing_zeros;

use super::drive;
use super::Kernel;
use super::Scan;
use crate::rolling;
use crate::table;

verus! {

/// The state over the last `w` bytes up to and with position `j`, from zero.
pub open spec fn window_state(blk: Seq<u8>, j: int, w: int) -> u16 {
    rolling::state_after(0, blk.subrange(if j + 1 < w { 0 } else { j + 1 - w }, j + 1))
}

/// A window of one byte holds that byte's table value.
pub proof fn lemma_window_one(blk: Seq<u8>, j: int)
    requires
        0 <= j < blk.len(),
    ensures
        window_state(blk, j, 1) == table::table_entry(blk[j]),
{
    let one = blk.subrange(j, j + 1);
    assert(one.drop_last() =~= Seq::<u8>::empty());
    assert(rolling::state_after(0, one.drop_last()) == 0);
    let t = table::table_entry(blk[j]);
    assert((0u16 << 1) ^ t == t) by (bit_vector);
}

/// A window of `2w` bytes is the later half over the earlier half, shifted.
pub proof fn lemma_window_double(blk: Seq<u8>, j: int, w: int)
    requires
        0 <= j < blk.len(),
        1 <= w,
    ensures
        j < w ==> window_state(blk, j, 2 * w) == window_state(blk, j, w),
        j >= w ==> window_state(blk, j, 2 * w) == window_state(blk, j, w) ^ rolling::shl(
            window_state(blk, j - w, w),
            w as nat,
        ),
{
    if j >= w {
        let lo = if j + 1 < 2 * w { 0 } else { j + 1 - 2 * w };
        let x = blk.subrange(lo, j + 1 - w);
        let y = blk.subrange(j + 1 - w, j + 1);
        assert(blk.subrange(lo, j + 1) =~= x + y);
        rolling::lemma_state_concat(0, x, y);
        rolling::lemma_state_linear(rolling::state_after(0, x), y);
        let a = rolling::shl(rolling::state_after(0, x), w as nat);
        let b = rolling::state_after(0, y);
        assert(a ^ b == b ^ a) by (bit_vector);
    }
}

/// A full window from zero, with the carried state shifted in, is the state.
pub proof fn lemma_window_full(blk: Seq<u8>, j: int, h: u16)
    requires
        0 <= j < 16,
        blk.len() == 16,
    ensures
        window_state(blk, j, 16) ^ rolling::shl(h, (j + 1) as nat) == rolling::state_after(
            h,
            blk.take(j + 1),
        ),
{
    assert(blk.subrange(0, j + 1) =~= blk.take(j + 1));
    rolling::lemma_state_linear(h, blk.take(j + 1));
    let a = rolling::shl(h, (j + 1) as nat);
    let b = window_state(blk, j, 16);
    assert(a ^ b == b ^ a) by (bit_vector);
}

/// Bit `k` of `x | (v << j)`, for a single bit `v`.
proof fn lemma_set_bit(x: u16, v: u16, j: u16, k: u16)
    by (bit_vector)
    requires
        j < 16,
        k < 16,
        v <= 1,
    ensures
        k != j ==> ((x | (v << j)) >> k) & 1 == (x >> k) & 1,
        k == j && (x >> k) & 1 == 0 ==> ((x | (v << j)) >> k) & 1 == v,
{
}

/// Portable block kernel: the same algorithm shape as the vector kernel, in
/// plain array loops.
pub struct Portable;

impl Portable {
    /// The windowed states of a block, by doubling the window from 1 to 16.
    fn prefix(blk: &[u8; 16]) -> (s: [u16; 16])
        ensures
            forall|j: int| 0 <= j < 16 ==> #[trigger] s@[j] == window_state(blk@, j, 16),
    {
        let mut s = [0u16; 16];
        let mut j: usize = 0;
        while j < 16
            invariant
                j <= 16,
                forall|k: int| 0 <= k < j ==> #[trigger] s@[k] == window_state(blk@, k, 1),
            decreases 16 - j,
        {
            s[j] = table::entry(blk[j]);
            proof {
                lemma_window_one(blk@, j as int);
            }
            j = j + 1;
        }
        let mut step: usize = 1;
        while step < 16
            invariant
                step == 1 || step == 2 || step == 4 || step == 8 || step == 16,
                forall|k: int| 0 <= k < 16 ==> #[trigger] s@[k] == window_state(blk@, k, step as int),
            decreases 16 - step,
        {
            let mut t = [0u16; 16];
            let mut j: usize = 0;
            while j < 16
                invariant
                    j <= 16,
                    step == 1 || step == 2 || step == 4 || step == 8,
                    forall|k: int|
                        0 <= k < 16 ==> #[trigger] s@[k] == window_state(blk@, k, step as int),
                    forall|k: int|
                        0 <= k < j ==> #[trigger] t@[k] == window_state(blk@, k, 2 * step),
                decreases 16 - j,
            {
                proof {
                    lemma_window_double(blk@, j as int, step as int);
                }
                t[j] = if j >= step {
                    s[j] ^ (s[j - step] << (step as u16))
                } else {
                    s[j]
                };
                j = j + 1;
            }
            s = t;
            step = step * 2;
        }
        s
    }
}

impl Kernel for Portable {
    type Carry = u16;

    type Lanes = [u16; 16];

    type Hits = u16;

    open spec fn carry_ok(c: u16) -> bool {
        true
    }

    open spec fn carry_state(c: u16) -> u16 {
        c
    }

    open spec fn lane_state(l: [u16; 16], j: int) -> u16 {
        l@[j]
    }

    open spec fn hits_ok(f: u16) -> bool {
        true
    }

    open spec fn is_hit(f: u16, j: int) -> bool {
        (f >> (j as u16)) & 1 == 1
    }

    fn init(h: u16) -> (c: u16) {
        h
    }

    fn carry_value(c: u16) -> (h: u16) {
        c
    }

    fn block(blk: &[u8; 16], carry: u16, mask: u16) -> (r: ([u16; 16], u16, u16)) {
        let s = Self::prefix(blk);
        let mut hv = [0u16; 16];
        let mut hits: u16 = 0;
        let mut j: usize = 0;
        proof {
            assert forall|k: int| 0 <= k < 16 implies !Self::is_hit(hits, k) by {
                let kk = k as u16;
                assert((0u16 >> kk) & 1 == 0) by (bit_vector);
            }
        }
        while j < 16
            invariant
                j <= 16,
                forall|k: int| 0 <= k < 16 ==> #[trigger] s@[k] == window_state(blk@, k, 16),
                forall|k: int|
                    0 <= k < j ==> #[trigger] hv@[k] == rolling::state_after(
                        carry,
                        blk@.take(k + 1),
                    ),
                forall|k: int|
                    0 <= k < j ==> (#[trigger] Self::is_hit(hits, k) <==> hv@[k] & mask == 0),
                forall|k: int| j <= k < 16 ==> !#[trigger] Self::is_hit(hits, k),
            decreases 16 - j,
        {
            // Widen before shifting: the shift by 16 in lane 15 drops every bit.
            let shifted: u16 = ((carry as u32) << ((j + 1) as u32)) as u16;
            let v: u16 = s[j] ^ shifted;
            proof {
                lemma_carry_shift(carry, (j + 1) as u32);
                lemma_window_full(blk@, j as int, carry);
            }
            hv[j] = v;
            let bit: u16 = if v & mask == 0 {
                1
            } else {
                0
            };
            let ghost before = hits;
            hits = hits | (bit << (j as u16));
            proof {
                assert forall|k: int| 0 <= k < 16 implies (#[trigger] Self::is_hit(hits, k)
                    <==> if k == j {
                    v & mask == 0
                } else {
                    Self::is_hit(before, k)
                }) by {
                    assert(k == j ==> !Self::is_hit(before, k));
                    lemma_set_bit(before, bit, j as u16, k as u16);
                    let kk = k as u16;
                    assert((before >> kk) & 1 == 0 || (before >> kk) & 1 == 1) by (bit_vector);
                }
            }
            j = j + 1;
        }
        assert(blk@.take(16) =~= blk@);
        (hv, hits, hv[15])
    }

    fn any(a: u16, b: u16) -> (r: bool) {
        proof {
            lemma_nonzero_hits(a);
            lemma_nonzero_hits(b);
            assert(a | b == 0 <==> a == 0 && b == 0) by (bit_vector);
        }
        a | b != 0
    }

    fn first(h: u16) -> (r: Option<usize>) {
        proof {
            lemma_nonzero_hits(h);
        }
        if h == 0 {
            None
        } else {
            proof {
                axiom_u16_trailing_zeros(h);
            }
            Some(h.trailing_zeros() as usize)
        }
    }

    fn lane(l: [u16; 16], i: usize) -> (h: u16) {
        l[i]
    }
}

/// Shifting the carried state in 32 bits and truncating is the 16-bit shift.
proof fn lemma_carry_shift(c: u16, n: u32)
    requires
        1 <= n <= 16,
    ensures
        ((c as u32) << n) as u16 == rolling::shl(c, n as nat),
{
    let k = n as u16;
    assert(n < 16 ==> ((c as u32) << n) as u16 == c << k) by (bit_vector)
        requires
            k == n,
    ;
    assert(((c as u32) << 16) as u16 == 0) by (bit_vector);
}

/// A mask is zero exactly when no position of it is set.
proof fn lemma_nonzero_hits(h: u16)
    ensures
        h == 0 <==> forall|j: int| 0 <= j < 16 ==> !#[trigger] Portable::is_hit(h, j),
{
    if h == 0 {
        assert forall|j: int| 0 <= j < 16 implies !#[trigger] Portable::is_hit(h, j) by {
            let jj = j as u16;
            assert((0u16 >> jj) & 1 == 0) by (bit_vector);
        }
    } else {
        axiom_u16_trailing_zeros(h);
        assert(Portable::is_hit(h, h.trailing_zeros() as int));
    }
}

/// Portable kernel through the shared driver.
pub fn scan_portable(data: &[u8], h: u64, mask: u64) -> (r: Scan)
    ensures
        r == rolling::scan_result(data@, h, mask),
{
    drive::<Portable>(data, h, mask)
}

} // verus!
