//! The AVX2 block kernel: the per-block math only, instruction by instruction
//! over [`Vector`]. The loop, the unroll and the tails live in the shared
//! driver.
use vstd::prelude::*;
use vstd::std_specs::bits::axiom_u32_trailing_zeros;

use super::drive;
use super::portable;
use super::scan_ref;
use super::vector::Vector;
use super::Kernel;
use super::Scan;
use crate::rolling;
use crate::table;
use crate::table::{A_HI, A_LO, B_HI, B_LO};

verus! {

/// Per-lane multipliers `2^(j+1)` for the carried-state term; lane 15's
/// `2^16` is zero in 16 bits, which is exactly `h << 16`.
pub const MULT_H: [u16; 16] = [
    0x0002, 0x0004, 0x0008, 0x0010, 0x0020, 0x0040, 0x0080, 0x0100,
    0x0200, 0x0400, 0x0800, 0x1000, 0x2000, 0x4000, 0x8000, 0x0000,
];

/// Stitch multipliers: the high half receives the low half's lane-7 prefix
/// times `2^(j-7)`; the low half nothing.
pub const MULT_S: [u16; 16] = [
    0x0000, 0x0000, 0x0000, 0x0000, 0x0000, 0x0000, 0x0000, 0x0000,
    0x0002, 0x0004, 0x0008, 0x0010, 0x0020, 0x0040, 0x0080, 0x0100,
];

/// The multipliers shift.
proof fn lemma_multipliers(x: u16, j: int)
    requires
        0 <= j < 16,
    ensures
        (x * MULT_H@[j]) as u16 == rolling::shl(x, (j + 1) as nat),
        (x * MULT_S@[j]) as u16 == if j < 8 {
            0
        } else {
            rolling::shl(x, (j - 7) as nat)
        },
{
    assert({
        &&& (x * 0x0002) as u16 == x << 1
        &&& (x * 0x0004) as u16 == x << 2
        &&& (x * 0x0008) as u16 == x << 3
        &&& (x * 0x0010) as u16 == x << 4
        &&& (x * 0x0020) as u16 == x << 5
        &&& (x * 0x0040) as u16 == x << 6
        &&& (x * 0x0080) as u16 == x << 7
        &&& (x * 0x0100) as u16 == x << 8
        &&& (x * 0x0200) as u16 == x << 9
        &&& (x * 0x0400) as u16 == x << 10
        &&& (x * 0x0800) as u16 == x << 11
        &&& (x * 0x1000) as u16 == x << 12
        &&& (x * 0x2000) as u16 == x << 13
        &&& (x * 0x4000) as u16 == x << 14
        &&& (x * 0x8000) as u16 == x << 15
        &&& (x * 0x0000) as u16 == 0
    }) by (bit_vector);
    assert(j == 0 || j == 1 || j == 2 || j == 3 || j == 4 || j == 5 || j == 6 || j == 7 || j == 8
        || j == 9 || j == 10 || j == 11 || j == 12 || j == 13 || j == 14 || j == 15);
}

/// A lane is its high byte over its low byte.
proof fn lemma_lane_of_bytes(v: Vector, j: int)
    requires
        0 <= j < 16,
    ensures
        v.lane(j) == v.byte(2 * j) as u16 | ((v.byte(2 * j + 1) as u16) << 8),
{
    let x = v.lane(j);
    assert(x == (x as u8) as u16 | ((((x >> 8) as u8) as u16) << 8)) by (bit_vector);
}

/// Looks up `plane` with the nibble in each lane of `nibbles`: the top bit of
/// the index's high byte makes the shuffle clear the lane's high byte.
fn lookup(plane: &[u8; 16], nibbles: Vector) -> (r: Vector)
    requires
        forall|j: int| 0 <= j < 16 ==> #[trigger] nibbles.lane(j) < 16,
    ensures
        forall|j: int|
            0 <= j < 16 ==> #[trigger] r.lane(j) == plane@[nibbles.lane(j) as int] as u16,
{
    let idx = nibbles.or(Vector::splat(0x8000));
    let planes = Vector::broadcast(plane);
    let r = planes.shuffle(idx);
    proof {
        assert forall|j: int| 0 <= j < 16 implies #[trigger] r.lane(j) == plane@[nibbles.lane(
            j,
        ) as int] as u16 by {
            let n = nibbles.lane(j);
            let i = idx.lane(j);
            let lo = i as u8;
            let hi = (i >> 8) as u8;
            assert(lo & 0x80 == 0 && lo & 0x0F == n && hi & 0x80 != 0) by (bit_vector)
                requires
                    n < 16,
                    i == n | 0x8000,
                    lo == i as u8,
                    hi == (i >> 8) as u8,
            ;
            assert(idx.byte(2 * j) == lo);
            assert(idx.byte(2 * j + 1) == hi);
            assert(r.byte(2 * j) == planes.shuffled_byte(idx, 2 * j));
            assert(r.byte(2 * j + 1) == 0);
            assert(planes.byte(16 * ((2 * j) / 16) + n) == plane@[n as int]);
            lemma_lane_of_bytes(r, j);
            let p = plane@[n as int];
            assert(p as u16 | ((0u8 as u16) << 8) == p as u16) by (bit_vector);
        }
    }
    r
}

/// Broadcasts lane 7 of each half over that half.
fn spread_lane_7(v: Vector) -> (r: Vector)
    ensures
        forall|j: int| 0 <= j < 16 ==> #[trigger] r.lane(j) == v.lane(8 * (j / 8) + 7),
{
    let idx = Vector::splat(0x0F0E);
    let r = v.shuffle(idx);
    proof {
        assert(0x0F0Eu16 as u8 == 0x0E && (0x0F0Eu16 >> 8) as u8 == 0x0F && 0x0Eu8 & 0x80 == 0
            && 0x0Fu8 & 0x80 == 0 && 0x0Eu8 & 0x0F == 0x0E && 0x0Fu8 & 0x0F == 0x0F)
            by (bit_vector);
        assert forall|j: int| 0 <= j < 16 implies #[trigger] r.lane(j) == v.lane(
            8 * (j / 8) + 7,
        ) by {
            let src = 8 * (j / 8) + 7;
            assert(idx.byte(2 * j) == 0x0E) by {
                assert(idx.lane(j) == 0x0F0E);
            }
            assert(idx.byte(2 * j + 1) == 0x0F) by {
                assert(idx.lane(j) == 0x0F0E);
            }
            assert(r.byte(2 * j) == v.shuffled_byte(idx, 2 * j));
            assert(r.byte(2 * j + 1) == v.shuffled_byte(idx, 2 * j + 1));
            assert(16 * ((2 * j) / 16) + 0x0E == 2 * src);
            assert(16 * ((2 * j + 1) / 16) + 0x0F == 2 * src + 1);
            lemma_lane_of_bytes(r, j);
            lemma_lane_of_bytes(v, src);
        }
    }
    r
}

/// The half of a block that position `j` lies in.
pub open spec fn half(blk: Seq<u8>, j: int) -> Seq<u8> {
    blk.subrange(8 * (j / 8), 8 * (j / 8) + 8)
}

/// The AVX2 kernel.
pub struct Avx2;

impl Avx2 {
    /// Table values `g_j = T[b_j]`, by nibble shuffles.
    fn gather(blk: &[u8; 16]) -> (g: Vector)
        ensures
            forall|j: int| 0 <= j < 16 ==> #[trigger] g.lane(j) == table::table_entry(blk@[j]),
    {
        let nib_mask = Vector::splat(0x000F);
        let v = Vector::widen(blk);
        let lo = v.and(nib_mask);
        let hi = v.shr_bits(4).and(nib_mask);
        proof {
            assert forall|j: int| 0 <= j < 16 implies #[trigger] lo.lane(j) == (blk@[j] & 15) as u16
                && lo.lane(j) < 16 by {
                lemma_nibbles(blk@[j]);
                assert(v.lane(j) == blk@[j] as u16);
            }
            assert forall|j: int| 0 <= j < 16 implies #[trigger] hi.lane(j) == (blk@[j] >> 4) as u16
                && hi.lane(j) < 16 by {
                lemma_nibbles(blk@[j]);
                assert(v.lane(j) == blk@[j] as u16);
            }
        }
        let ga = lookup(&A_LO, lo).or(lookup(&A_HI, lo).shl_bits(8));
        let gb = lookup(&B_LO, hi).or(lookup(&B_HI, hi).shl_bits(8));
        proof {
            assert forall|j: int| 0 <= j < 16 implies #[trigger] ga.lane(j) == table::a_entry(
                blk@[j] & 15,
            ) by {
                assert(lo.lane(j) == (blk@[j] & 15) as u16);
                lemma_nibbles(blk@[j]);
                table::lemma_entries(blk@[j] & 15);
            }
            assert forall|j: int| 0 <= j < 16 implies #[trigger] gb.lane(j) == table::b_entry(
                blk@[j] >> 4,
            ) by {
                assert(hi.lane(j) == (blk@[j] >> 4) as u16);
                lemma_nibbles(blk@[j]);
                table::lemma_entries(blk@[j] >> 4);
            }
        }
        ga.xor(gb)
    }

    /// One doubling of the shift-xor scan, within each half.
    fn double(blk: Ghost<Seq<u8>>, s: Vector, w: usize) -> (r: Vector)
        requires
            blk@.len() == 16,
            w == 1 || w == 2 || w == 4,
            forall|j: int|
                0 <= j < 16 ==> #[trigger] s.lane(j) == portable::window_state(
                    half(blk@, j),
                    j % 8,
                    w as int,
                ),
        ensures
            forall|j: int|
                0 <= j < 16 ==> #[trigger] r.lane(j) == portable::window_state(
                    half(blk@, j),
                    j % 8,
                    2 * w,
                ),
    {
        let up = s.shl_lanes(w).shl_bits(w as u16);
        let r = s.xor(up);
        proof {
            let n = w as u16;
            assert(0u16 << n == 0) by (bit_vector);
            assert forall|j: int| 0 <= j < 16 implies #[trigger] r.lane(j)
                == portable::window_state(half(blk@, j), j % 8, 2 * w) by {
                portable::lemma_window_double(half(blk@, j), j % 8, w as int);
                assert(r.lane(j) == s.lane(j) ^ up.lane(j));
                let x = s.lane(j);
                if j % 8 >= w {
                    assert(half(blk@, j - w) == half(blk@, j));
                    assert(s.lane(j - w) == portable::window_state(
                        half(blk@, j),
                        j % 8 - w,
                        w as int,
                    ));
                } else {
                    assert(x ^ 0 == x) by (bit_vector);
                }
            }
        }
        r
    }

    /// Block prefixes from zero: the scan of each half, with the low half's
    /// last prefix stitched into the high half.
    fn prefix(blk: &[u8; 16]) -> (p: Vector)
        ensures
            forall|j: int|
                0 <= j < 16 ==> #[trigger] p.lane(j) == rolling::state_after(0, blk@.take(j + 1)),
    {
        let g = Self::gather(blk);
        proof {
            assert forall|j: int| 0 <= j < 16 implies #[trigger] g.lane(j)
                == portable::window_state(half(blk@, j), j % 8, 1) by {
                portable::lemma_window_one(half(blk@, j), j % 8);
            }
        }
        let ghost bytes = blk@;
        let s = Self::double(Ghost(bytes), g, 1);
        let s = Self::double(Ghost(bytes), s, 2);
        let s = Self::double(Ghost(bytes), s, 4);
        let s7 = spread_lane_7(s.low_twice());
        let stitch = s7.mul_low(Vector::load(&MULT_S));
        let p = s.xor(stitch);
        proof {
            assert forall|j: int| 0 <= j < 16 implies #[trigger] p.lane(j) == rolling::state_after(
                0,
                blk@.take(j + 1),
            ) by {
                assert(s7.lane(j) == s.lane(7));
                lemma_multipliers(s.lane(7), j);
                let x = s.lane(j);
                assert(p.lane(j) == x ^ stitch.lane(j));
                if j < 8 {
                    assert(half(blk@, j).subrange(0, j + 1) =~= blk@.take(j + 1));
                    assert(x ^ 0 == x) by (bit_vector);
                } else {
                    let first = blk@.take(8);
                    let rest = blk@.subrange(8, j + 1);
                    assert(half(blk@, 7).subrange(0, 8) =~= first);
                    assert(half(blk@, j).subrange(0, j - 7) =~= rest);
                    assert(blk@.take(j + 1) =~= first + rest);
                    rolling::lemma_state_concat(0, first, rest);
                    rolling::lemma_state_linear(rolling::state_after(0, first), rest);
                    let y = rolling::shl(rolling::state_after(0, first), (j - 7) as nat);
                    assert(x ^ y == y ^ x) by (bit_vector);
                }
            }
        }
        p
    }
}

/// The nibbles of a byte, taken in a lane.
proof fn lemma_nibbles(b: u8)
    ensures
        (b as u16) & 0x000F == (b & 15) as u16,
        ((b as u16) >> 4) & 0x000F == (b >> 4) as u16,
        b & 15 < 16,
        b >> 4 < 16,
{
    assert((b as u16) & 0x000F == (b & 15) as u16 && ((b as u16) >> 4) & 0x000F == (b >> 4) as u16
        && b & 15 < 16 && b >> 4 < 16) by (bit_vector);
}

impl Kernel for Avx2 {
    type Carry = Vector;

    type Lanes = Vector;

    type Hits = Vector;

    open spec fn carry_ok(c: Vector) -> bool {
        forall|j: int| 0 <= j < 16 ==> #[trigger] c.lane(j) == c.lane(0)
    }

    open spec fn carry_state(c: Vector) -> u16 {
        c.lane(0)
    }

    open spec fn lane_state(l: Vector, j: int) -> u16 {
        l.lane(j)
    }

    open spec fn hits_ok(f: Vector) -> bool {
        forall|j: int| 0 <= j < 16 ==> #[trigger] f.lane(j) == 0 || f.lane(j) == 0xFFFF
    }

    open spec fn is_hit(f: Vector, j: int) -> bool {
        f.lane(j) == 0xFFFF
    }

    fn init(h: u16) -> (c: Vector) {
        Vector::splat(h)
    }

    fn carry_value(c: Vector) -> (h: u16) {
        c.lanes[0]
    }

    fn block(blk: &[u8; 16], carry: Vector, mask: u16) -> (r: (Vector, Vector, Vector)) {
        let pfull = Self::prefix(blk);
        // Check values: prefix ^ (carry << (j + 1)).
        let hterm = carry.mul_low(Vector::load(&MULT_H));
        let hv = pfull.xor(hterm);
        // The next carry is lane 15 of the prefix: it depends on this block's
        // bytes alone.
        let next = spread_lane_7(pfull.high_twice());
        let hits = hv.and(Vector::splat(mask)).equals(Vector::splat(0));
        proof {
            let h = carry.lane(0);
            assert forall|j: int| 0 <= j < 16 implies #[trigger] hv.lane(j) == rolling::state_after(
                h,
                blk@.take(j + 1),
            ) by {
                assert(carry.lane(j) == h);
                lemma_multipliers(h, j);
                rolling::lemma_state_linear(h, blk@.take(j + 1));
                let a = pfull.lane(j);
                let b = hterm.lane(j);
                assert(a ^ b == b ^ a) by (bit_vector);
            }
            assert(blk@.take(16) =~= blk@);
            assert forall|j: int| 0 <= j < 16 implies #[trigger] next.lane(j)
                == rolling::state_after(h, blk@) by {
                assert(next.lane(j) == pfull.lane(15));
                rolling::lemma_state_forgets(h, 0, blk@);
            }
        }
        (hv, hits, next)
    }

    fn any(a: Vector, b: Vector) -> (r: bool) {
        let both = a.or(b);
        let mm: u32 = both.move_mask();
        proof {
            lemma_or_hits(a, b, both);
            lemma_move_mask(both, mm);
            if mm != 0 {
                let j = (mm.trailing_zeros() / 2) as int;
                assert(both.lane(j) == 0xFFFF);
                assert(Self::is_hit(a, j) || Self::is_hit(b, j));
            } else {
                assert forall|j: int| 0 <= j < 16 implies !#[trigger] Self::is_hit(a, j) by {
                    assert(both.lane(j) != 0xFFFF);
                }
                assert forall|j: int| 0 <= j < 16 implies !#[trigger] Self::is_hit(b, j) by {
                    assert(both.lane(j) != 0xFFFF);
                }
            }
        }
        mm != 0
    }

    fn first(h: Vector) -> (r: Option<usize>) {
        let mm: u32 = h.move_mask();
        proof {
            lemma_move_mask(h, mm);
        }
        if mm == 0 {
            None
        } else {
            Some((mm.trailing_zeros() / 2) as usize)
        }
    }

    fn lane(l: Vector, i: usize) -> (h: u16) {
        l.lanes[i]
    }
}

/// Two fire indicators, or-ed, are one.
proof fn lemma_or_hits(a: Vector, b: Vector, both: Vector)
    requires
        Avx2::hits_ok(a),
        Avx2::hits_ok(b),
        forall|j: int| 0 <= j < 16 ==> #[trigger] both.lane(j) == a.lane(j) | b.lane(j),
    ensures
        Avx2::hits_ok(both),
        forall|j: int|
            0 <= j < 16 ==> (#[trigger] both.lane(j) == 0xFFFF <==> a.lane(j) == 0xFFFF || b.lane(j)
                == 0xFFFF),
{
    assert forall|j: int| 0 <= j < 16 implies (#[trigger] both.lane(j) == 0xFFFF <==> a.lane(j)
        == 0xFFFF || b.lane(j) == 0xFFFF) && (both.lane(j) == 0 || both.lane(j) == 0xFFFF) by {
        assert(a.lane(j) == 0 || a.lane(j) == 0xFFFF);
        assert(b.lane(j) == 0 || b.lane(j) == 0xFFFF);
        assert(0u16 | 0u16 == 0 && 0u16 | 0xFFFFu16 == 0xFFFF && 0xFFFFu16 | 0u16 == 0xFFFF
            && 0xFFFFu16 | 0xFFFFu16 == 0xFFFF) by (bit_vector);
    }
}

/// The byte mask of a fire indicator has two bits per lane: it is zero where
/// nothing fires, and its first bit lies in the first firing lane.
proof fn lemma_move_mask(f: Vector, mm: u32)
    requires
        Avx2::hits_ok(f),
        forall|k: u32| k < 32 ==> (#[trigger] (mm >> k) & 1 == 1 <==> f.byte(k as int) & 0x80 != 0),
    ensures
        mm == 0 ==> forall|j: int| 0 <= j < 16 ==> #[trigger] f.lane(j) != 0xFFFF,
        mm != 0 ==> {
            let z = mm.trailing_zeros();
            &&& z < 32
            &&& f.lane((z / 2) as int) == 0xFFFF
            &&& forall|j: int| 0 <= j < z / 2 ==> #[trigger] f.lane(j) != 0xFFFF
        },
{
    axiom_u32_trailing_zeros(mm);
    assert(0xFFFFu16 as u8 & 0x80 != 0 && 0u16 as u8 & 0x80 == 0 && (0u16 >> 8) as u8 & 0x80 == 0)
        by (bit_vector);
    let z = mm.trailing_zeros();
    assert forall|j: int| 0 <= j < 16 && 2 * j < z implies #[trigger] f.lane(j) != 0xFFFF by {
        let k = (2 * j) as u32;
        assert((mm >> k) & 1 == 0);
        assert(f.byte(2 * j) & 0x80 == 0);
    }
    if mm != 0 {
        assert((mm >> z) & 1 == 1);
        assert(f.byte(z as int) & 0x80 != 0);
        assert(f.lane((z / 2) as int) == 0 || f.lane((z / 2) as int) == 0xFFFF);
    }
}

/// AVX2 kernel through the shared driver; short inputs go to the reference.
pub fn scan_avx2(data: &[u8], h: u64, mask: u64) -> (r: Scan)
    ensures
        r == rolling::scan_result(data@, h, mask),
{
    if data.len() >= 64 {
        drive::<Avx2>(data, h, mask)
    } else {
        scan_ref(data, h, mask)
    }
}

} // verus!
