//! A 256-bit register of sixteen u16 lanes, in safe code: one function per
//! vector instruction that the block math of the AVX2 kernel is made of.
use vstd::prelude::*;

verus! {

/// Sixteen u16 lanes. Lanes 0 to 7 are the low 128-bit half, lanes 8 to 15
/// the high half; lane `j` holds bytes `2j` (low) and `2j + 1` (high).
#[derive(Clone, Copy)]
pub struct Vector {
    pub lanes: [u16; 16],
}

impl Vector {
    /// Lane `j`.
    pub open spec fn lane(self, j: int) -> u16 {
        self.lanes@[j]
    }

    /// Byte `k` of the register.
    pub open spec fn byte(self, k: int) -> u8 {
        if k % 2 == 0 {
            self.lane(k / 2) as u8
        } else {
            (self.lane(k / 2) >> 8) as u8
        }
    }

    /// Every lane set to `x` (`vpbroadcastw`).
    pub fn splat(x: u16) -> (r: Vector)
        ensures
            forall|j: int| 0 <= j < 16 ==> #[trigger] r.lane(j) == x,
    {
        Vector { lanes: [x; 16] }
    }

    /// Sixteen lanes from memory (`vmovdqu`).
    pub fn load(lanes: &[u16; 16]) -> (r: Vector)
        ensures
            forall|j: int| 0 <= j < 16 ==> #[trigger] r.lane(j) == lanes@[j],
    {
        Vector { lanes: *lanes }
    }

    /// Sixteen bytes, copied into both halves (`vbroadcasti128`).
    pub fn broadcast(plane: &[u8; 16]) -> (r: Vector)
        ensures
            forall|k: int| 0 <= k < 32 ==> #[trigger] r.byte(k) == plane@[k % 16],
    {
        let mut lanes = [0u16; 16];
        let mut j: usize = 0;
        while j < 16
            invariant
                j <= 16,
                forall|i: int|
                    0 <= i < j ==> #[trigger] lanes@[i] as u8 == plane@[2 * (i % 8)] && (lanes@[i]
                        >> 8) as u8 == plane@[2 * (i % 8) + 1],
            decreases 16 - j,
        {
            let lo: u8 = plane[2 * (j % 8)];
            let hi: u8 = plane[2 * (j % 8) + 1];
            lanes[j] = join(lo, hi);
            j = j + 1;
        }
        let r = Vector { lanes };
        proof {
            assert forall|k: int| 0 <= k < 32 implies #[trigger] r.byte(k) == plane@[k % 16] by {
                let i = k / 2;
                assert(lanes@[i] as u8 == plane@[2 * (i % 8)]);
            }
        }
        r
    }

    /// Sixteen bytes, each zero-extended to a lane (`vpmovzxbw`).
    pub fn widen(blk: &[u8; 16]) -> (r: Vector)
        ensures
            forall|j: int| 0 <= j < 16 ==> #[trigger] r.lane(j) == blk@[j] as u16,
    {
        let mut lanes = [0u16; 16];
        let mut j: usize = 0;
        while j < 16
            invariant
                j <= 16,
                forall|i: int| 0 <= i < j ==> #[trigger] lanes@[i] == blk@[i] as u16,
            decreases 16 - j,
        {
            lanes[j] = blk[j] as u16;
            j = j + 1;
        }
        Vector { lanes }
    }

    /// Lane-wise and (`vpand`).
    pub fn and(self, other: Vector) -> (r: Vector)
        ensures
            forall|j: int| 0 <= j < 16 ==> #[trigger] r.lane(j) == self.lane(j) & other.lane(j),
    {
        let mut lanes = [0u16; 16];
        let mut j: usize = 0;
        while j < 16
            invariant
                j <= 16,
                forall|i: int|
                    0 <= i < j ==> #[trigger] lanes@[i] == self.lane(i) & other.lane(i),
            decreases 16 - j,
        {
            lanes[j] = self.lanes[j] & other.lanes[j];
            j = j + 1;
        }
        Vector { lanes }
    }

    /// Lane-wise or (`vpor`).
    pub fn or(self, other: Vector) -> (r: Vector)
        ensures
            forall|j: int| 0 <= j < 16 ==> #[trigger] r.lane(j) == self.lane(j) | other.lane(j),
    {
        let mut lanes = [0u16; 16];
        let mut j: usize = 0;
        while j < 16
            invariant
                j <= 16,
                forall|i: int|
                    0 <= i < j ==> #[trigger] lanes@[i] == self.lane(i) | other.lane(i),
            decreases 16 - j,
        {
            lanes[j] = self.lanes[j] | other.lanes[j];
            j = j + 1;
        }
        Vector { lanes }
    }

    /// Lane-wise exclusive or (`vpxor`).
    pub fn xor(self, other: Vector) -> (r: Vector)
        ensures
            forall|j: int| 0 <= j < 16 ==> #[trigger] r.lane(j) == self.lane(j) ^ other.lane(j),
    {
        let mut lanes = [0u16; 16];
        let mut j: usize = 0;
        while j < 16
            invariant
                j <= 16,
                forall|i: int|
                    0 <= i < j ==> #[trigger] lanes@[i] == self.lane(i) ^ other.lane(i),
            decreases 16 - j,
        {
            lanes[j] = self.lanes[j] ^ other.lanes[j];
            j = j + 1;
        }
        Vector { lanes }
    }

    /// Every lane shifted left by `n` bits (`vpsllw`).
    pub fn shl_bits(self, n: u16) -> (r: Vector)
        requires
            n < 16,
        ensures
            forall|j: int| 0 <= j < 16 ==> #[trigger] r.lane(j) == self.lane(j) << n,
    {
        let mut lanes = [0u16; 16];
        let mut j: usize = 0;
        while j < 16
            invariant
                j <= 16,
                n < 16,
                forall|i: int| 0 <= i < j ==> #[trigger] lanes@[i] == self.lane(i) << n,
            decreases 16 - j,
        {
            lanes[j] = self.lanes[j] << n;
            j = j + 1;
        }
        Vector { lanes }
    }

    /// Every lane shifted right by `n` bits (`vpsrlw`).
    pub fn shr_bits(self, n: u16) -> (r: Vector)
        requires
            n < 16,
        ensures
            forall|j: int| 0 <= j < 16 ==> #[trigger] r.lane(j) == self.lane(j) >> n,
    {
        let mut lanes = [0u16; 16];
        let mut j: usize = 0;
        while j < 16
            invariant
                j <= 16,
                n < 16,
                forall|i: int| 0 <= i < j ==> #[trigger] lanes@[i] == self.lane(i) >> n,
            decreases 16 - j,
        {
            lanes[j] = self.lanes[j] >> n;
            j = j + 1;
        }
        Vector { lanes }
    }

    /// Each half shifted up by `n` lanes, with zeros shifted in (`vpslldq`).
    pub fn shl_lanes(self, n: usize) -> (r: Vector)
        requires
            n <= 8,
        ensures
            forall|j: int|
                0 <= j < 16 ==> #[trigger] r.lane(j) == if j % 8 >= n {
                    self.lane(j - n)
                } else {
                    0
                },
    {
        let mut lanes = [0u16; 16];
        let mut j: usize = 0;
        while j < 16
            invariant
                j <= 16,
                n <= 8,
                forall|i: int|
                    0 <= i < j ==> #[trigger] lanes@[i] == if i % 8 >= n {
                        self.lane(i - n)
                    } else {
                        0
                    },
            decreases 16 - j,
        {
            lanes[j] = if j % 8 >= n {
                self.lanes[j - n]
            } else {
                0
            };
            j = j + 1;
        }
        Vector { lanes }
    }

    /// The low half in both halves (`vperm2i128` with selector 0x00).
    pub fn low_twice(self) -> (r: Vector)
        ensures
            forall|j: int| 0 <= j < 16 ==> #[trigger] r.lane(j) == self.lane(j % 8),
    {
        let mut lanes = [0u16; 16];
        let mut j: usize = 0;
        while j < 16
            invariant
                j <= 16,
                forall|i: int| 0 <= i < j ==> #[trigger] lanes@[i] == self.lane(i % 8),
            decreases 16 - j,
        {
            lanes[j] = self.lanes[j % 8];
            j = j + 1;
        }
        Vector { lanes }
    }

    /// The high half in both halves (`vperm2i128` with selector 0x11).
    pub fn high_twice(self) -> (r: Vector)
        ensures
            forall|j: int| 0 <= j < 16 ==> #[trigger] r.lane(j) == self.lane(8 + j % 8),
    {
        let mut lanes = [0u16; 16];
        let mut j: usize = 0;
        while j < 16
            invariant
                j <= 16,
                forall|i: int| 0 <= i < j ==> #[trigger] lanes@[i] == self.lane(8 + i % 8),
            decreases 16 - j,
        {
            lanes[j] = self.lanes[8 + j % 8];
            j = j + 1;
        }
        Vector { lanes }
    }

    /// Lane-wise product, low 16 bits (`vpmullw`).
    pub fn mul_low(self, other: Vector) -> (r: Vector)
        ensures
            forall|j: int|
                0 <= j < 16 ==> #[trigger] r.lane(j) == (self.lane(j) * other.lane(j)) as u16,
    {
        let mut lanes = [0u16; 16];
        let mut j: usize = 0;
        while j < 16
            invariant
                j <= 16,
                forall|i: int|
                    0 <= i < j ==> #[trigger] lanes@[i] == (self.lane(i) * other.lane(i)) as u16,
            decreases 16 - j,
        {
            let x: u16 = self.lanes[j];
            let y: u16 = other.lanes[j];
            lanes[j] = x.wrapping_mul(y);
            assert((x * y) as u16 == ((x * y) % 0x1_0000) as u16) by (bit_vector);
            j = j + 1;
        }
        Vector { lanes }
    }

    /// Lane-wise equality: all ones where equal, else zero (`vpcmpeqw`).
    pub fn equals(self, other: Vector) -> (r: Vector)
        ensures
            forall|j: int|
                0 <= j < 16 ==> #[trigger] r.lane(j) == if self.lane(j) == other.lane(j) {
                    0xFFFFu16
                } else {
                    0u16
                },
    {
        let mut lanes = [0u16; 16];
        let mut j: usize = 0;
        while j < 16
            invariant
                j <= 16,
                forall|i: int|
                    0 <= i < j ==> #[trigger] lanes@[i] == if self.lane(i) == other.lane(i) {
                        0xFFFFu16
                    } else {
                        0u16
                    },
            decreases 16 - j,
        {
            lanes[j] = if self.lanes[j] == other.lanes[j] {
                0xFFFF
            } else {
                0
            };
            j = j + 1;
        }
        Vector { lanes }
    }

    /// Byte `k` of the register, read.
    fn get_byte(&self, k: usize) -> (b: u8)
        requires
            k < 32,
        ensures
            b == self.byte(k as int),
    {
        if k % 2 == 0 {
            self.lanes[k / 2] as u8
        } else {
            (self.lanes[k / 2] >> 8) as u8
        }
    }

    /// One byte of a shuffle: nothing where the index byte has its top bit,
    /// else the byte of the same half that its low four bits name.
    pub open spec fn shuffled_byte(self, idx: Vector, k: int) -> u8 {
        if idx.byte(k) & 0x80 != 0 {
            0
        } else {
            self.byte(16 * (k / 16) + (idx.byte(k) & 0x0F))
        }
    }

    /// One byte of a shuffle, computed.
    fn shuffle_one(&self, idx: &Vector, k: usize) -> (b: u8)
        requires
            k < 32,
        ensures
            b == self.shuffled_byte(*idx, k as int),
    {
        let sel: u8 = idx.get_byte(k);
        if sel & 0x80 != 0 {
            0
        } else {
            assert(sel & 0x0F < 16) by (bit_vector);
            self.get_byte(16 * (k / 16) + (sel & 0x0F) as usize)
        }
    }

    /// Byte shuffle within each half (`vpshufb`).
    pub fn shuffle(self, idx: Vector) -> (r: Vector)
        ensures
            forall|k: int| 0 <= k < 32 ==> #[trigger] r.byte(k) == self.shuffled_byte(idx, k),
    {
        let mut lanes = [0u16; 16];
        let mut j: usize = 0;
        while j < 16
            invariant
                j <= 16,
                forall|i: int|
                    0 <= i < j ==> #[trigger] lanes@[i] as u8 == self.shuffled_byte(idx, 2 * i)
                        && (lanes@[i] >> 8) as u8 == self.shuffled_byte(idx, 2 * i + 1),
            decreases 16 - j,
        {
            let lo: u8 = self.shuffle_one(&idx, 2 * j);
            let hi: u8 = self.shuffle_one(&idx, 2 * j + 1);
            lanes[j] = join(lo, hi);
            j = j + 1;
        }
        let r = Vector { lanes };
        proof {
            assert forall|k: int| 0 <= k < 32 implies #[trigger] r.byte(k) == self.shuffled_byte(
                idx,
                k,
            ) by {
                let i = k / 2;
                assert(lanes@[i] as u8 == self.shuffled_byte(idx, 2 * i));
            }
        }
        r
    }

    /// The top bit of every byte, byte `k` in bit `k` (`vpmovmskb`).
    pub fn move_mask(self) -> (mm: u32)
        ensures
            forall|k: u32|
                k < 32 ==> (#[trigger] (mm >> k) & 1 == 1 <==> self.byte(k as int) & 0x80 != 0),
    {
        let mut mm: u32 = 0;
        let mut n: u32 = 0;
        assert(forall|k: u32| k < 32 ==> #[trigger] (0u32 >> k) & 1 == 0) by (bit_vector);
        while n < 32
            invariant
                n <= 32,
                forall|k: u32|
                    k < n ==> (#[trigger] (mm >> k) & 1 == 1 <==> self.byte(k as int) & 0x80 != 0),
                forall|k: u32| n <= k < 32 ==> #[trigger] (mm >> k) & 1 == 0,
            decreases 32 - n,
        {
            let bit: u32 = if self.get_byte(n as usize) & 0x80 != 0 {
                1
            } else {
                0
            };
            let ghost before = mm;
            mm = mm | (bit << n);
            assert(forall|k: u32|
                k < 32 ==> #[trigger] (mm >> k) & 1 == if k == n && (before >> k) & 1 == 0 {
                    bit
                } else if k == n {
                    1u32
                } else {
                    (before >> k) & 1
                }) by (bit_vector)
                requires
                    mm == before | (bit << n),
                    n < 32,
                    bit <= 1,
            ;
            n = n + 1;
        }
        mm
    }
}

/// A lane from its low and its high byte.
fn join(lo: u8, hi: u8) -> (lane: u16)
    ensures
        lane as u8 == lo,
        (lane >> 8) as u8 == hi,
{
    assert((lo as u16 | ((hi as u16) << 8)) as u8 == lo && ((lo as u16 | ((hi as u16) << 8)) >> 8)
        as u8 == hi) by (bit_vector);
    lo as u16 | ((hi as u16) << 8)
}

} // verus!
