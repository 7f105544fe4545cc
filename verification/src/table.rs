//! The format's tables: two 16-entry u16 nibble tables (split tabulation),
//! stored byte-planar so that a byte shuffle can look them up.
//!
//! Format-critical: the seed and the derivation below decide every cut
//! position. The planes are kept as literals; [`lemma_planes`] proves that
//! they are what the seed derives.
use vstd::prelude::*;

verus! {

/// Seed of the splitmix64 stream that the tables are read from.
pub const SEED: u64 = 0x7A31_9C55_D02B_66E1;

/// Increment of the splitmix64 stream.
pub const GAMMA: u64 = 0x9E37_79B9_7F4A_7C15;

/// First multiplier of the splitmix64 output function.
pub const MIX_1: u64 = 0xBF58_476D_1CE4_E5B9;

/// Second multiplier of the splitmix64 output function.
pub const MIX_2: u64 = 0x94D0_49BB_1331_11EB;

/// State of the stream when word `i` is drawn (arithmetic modulo 2^64).
pub open spec fn splitmix_state(i: u64) -> u64 {
    (SEED + (i + 1) * GAMMA) as u64
}

/// Output function of the stream (arithmetic modulo 2^64).
pub open spec fn splitmix_mix(s: u64) -> u64 {
    let z1 = ((s ^ (s >> 30)) * MIX_1) as u64;
    let z2 = ((z1 ^ (z1 >> 27)) * MIX_2) as u64;
    z2 ^ (z2 >> 31)
}

/// Word `i` of the stream.
pub open spec fn splitmix_word(i: u64) -> u64 {
    splitmix_mix(splitmix_state(i))
}

/// Entry `n` of the low-nibble table: bits 0 to 15 of word `n`.
pub open spec fn a_entry(n: u8) -> u16 {
    splitmix_word(n as u64) as u16
}

/// Entry `n` of the high-nibble table: bits 16 to 31 of word `n`.
pub open spec fn b_entry(n: u8) -> u16 {
    (splitmix_word(n as u64) >> 16) as u16
}

/// The value that byte `b` contributes to the rolling state:
/// `T[b] = A[b & 15] ^ B[b >> 4]`.
pub open spec fn table_entry(b: u8) -> u16 {
    a_entry(b & 15) ^ b_entry(b >> 4)
}

/// Low bytes of the low-nibble table entries.
pub const A_LO: [u8; 16] = [
    0xF8, 0x44, 0x5E, 0x7A, 0x46, 0x4C, 0x21, 0xDF,
    0x87, 0x31, 0x8D, 0xCC, 0xDF, 0x6D, 0xAB, 0x3D,
];

/// High bytes of the low-nibble table entries.
pub const A_HI: [u8; 16] = [
    0xEA, 0xC8, 0xF6, 0xD5, 0xA7, 0xB9, 0xF4, 0x35,
    0xEF, 0x29, 0xCB, 0xE5, 0x2C, 0x85, 0xB1, 0x34,
];

/// Low bytes of the high-nibble table entries.
pub const B_LO: [u8; 16] = [
    0x3E, 0x6F, 0x7A, 0x0D, 0x57, 0x1F, 0x5F, 0x50,
    0x2C, 0x32, 0xD6, 0xA4, 0x7F, 0xF0, 0x54, 0x49,
];

/// High bytes of the high-nibble table entries.
pub const B_HI: [u8; 16] = [
    0x64, 0x5F, 0xC3, 0xFD, 0x14, 0x6D, 0xBA, 0x91,
    0x15, 0x19, 0xD4, 0x8E, 0x91, 0xB1, 0xD9, 0x65,
];

/// The sixteen words of the stream that the tables are cut from.
proof fn lemma_words()
    ensures
        splitmix_word(0) == 0x7B3B34F4643EEAF8,
        splitmix_word(1) == 0x860E323F5F6FC844,
        splitmix_word(2) == 0xEB9CFB14C37AF65E,
        splitmix_word(3) == 0x7D9D0577FD0DD57A,
        splitmix_word(4) == 0x7756C9DD1457A746,
        splitmix_word(5) == 0xEF7D85206D1FB94C,
        splitmix_word(6) == 0xE37B7956BA5FF421,
        splitmix_word(7) == 0x9C3BEE03915035DF,
        splitmix_word(8) == 0x5D4597C9152CEF87,
        splitmix_word(9) == 0x579F5F5F19322931,
        splitmix_word(10) == 0x28C9BD6DD4D6CB8D,
        splitmix_word(11) == 0xD4A1684A8EA4E5CC,
        splitmix_word(12) == 0x384245EE917F2CDF,
        splitmix_word(13) == 0x3F2EC1D8B1F0856D,
        splitmix_word(14) == 0xFF6DA184D954B1AB,
        splitmix_word(15) == 0x5129B4416549343D,
{
    assert({
        &&& splitmix_word(0) == 0x7B3B34F4643EEAF8
        &&& splitmix_word(1) == 0x860E323F5F6FC844
        &&& splitmix_word(2) == 0xEB9CFB14C37AF65E
        &&& splitmix_word(3) == 0x7D9D0577FD0DD57A
        &&& splitmix_word(4) == 0x7756C9DD1457A746
        &&& splitmix_word(5) == 0xEF7D85206D1FB94C
        &&& splitmix_word(6) == 0xE37B7956BA5FF421
        &&& splitmix_word(7) == 0x9C3BEE03915035DF
        &&& splitmix_word(8) == 0x5D4597C9152CEF87
        &&& splitmix_word(9) == 0x579F5F5F19322931
        &&& splitmix_word(10) == 0x28C9BD6DD4D6CB8D
        &&& splitmix_word(11) == 0xD4A1684A8EA4E5CC
        &&& splitmix_word(12) == 0x384245EE917F2CDF
        &&& splitmix_word(13) == 0x3F2EC1D8B1F0856D
        &&& splitmix_word(14) == 0xFF6DA184D954B1AB
        &&& splitmix_word(15) == 0x5129B4416549343D
    }) by (bit_vector);
}

/// The four byte planes are the four low bytes of the seed's words.
pub proof fn lemma_planes(n: u8)
    requires
        n < 16,
    ensures
        A_LO@[n as int] == splitmix_word(n as u64) as u8,
        A_HI@[n as int] == (splitmix_word(n as u64) >> 8) as u8,
        B_LO@[n as int] == (splitmix_word(n as u64) >> 16) as u8,
        B_HI@[n as int] == (splitmix_word(n as u64) >> 24) as u8,
{
    lemma_words();
    let w = splitmix_word(n as u64);
    assert(n == 0 || n == 1 || n == 2 || n == 3 || n == 4 || n == 5 || n == 6 || n == 7 || n == 8
        || n == 9 || n == 10 || n == 11 || n == 12 || n == 13 || n == 14 || n == 15);
    assert({
        &&& (w == 0x7B3B34F4643EEAF8 ==> w as u8 == 0xF8 && (w >> 8) as u8 == 0xEA && (w >> 16) as u8
            == 0x3E && (w >> 24) as u8 == 0x64)
        &&& (w == 0x860E323F5F6FC844 ==> w as u8 == 0x44 && (w >> 8) as u8 == 0xC8 && (w >> 16) as u8
            == 0x6F && (w >> 24) as u8 == 0x5F)
        &&& (w == 0xEB9CFB14C37AF65E ==> w as u8 == 0x5E && (w >> 8) as u8 == 0xF6 && (w >> 16) as u8
            == 0x7A && (w >> 24) as u8 == 0xC3)
        &&& (w == 0x7D9D0577FD0DD57A ==> w as u8 == 0x7A && (w >> 8) as u8 == 0xD5 && (w >> 16) as u8
            == 0x0D && (w >> 24) as u8 == 0xFD)
        &&& (w == 0x7756C9DD1457A746 ==> w as u8 == 0x46 && (w >> 8) as u8 == 0xA7 && (w >> 16) as u8
            == 0x57 && (w >> 24) as u8 == 0x14)
        &&& (w == 0xEF7D85206D1FB94C ==> w as u8 == 0x4C && (w >> 8) as u8 == 0xB9 && (w >> 16) as u8
            == 0x1F && (w >> 24) as u8 == 0x6D)
        &&& (w == 0xE37B7956BA5FF421 ==> w as u8 == 0x21 && (w >> 8) as u8 == 0xF4 && (w >> 16) as u8
            == 0x5F && (w >> 24) as u8 == 0xBA)
        &&& (w == 0x9C3BEE03915035DF ==> w as u8 == 0xDF && (w >> 8) as u8 == 0x35 && (w >> 16) as u8
            == 0x50 && (w >> 24) as u8 == 0x91)
        &&& (w == 0x5D4597C9152CEF87 ==> w as u8 == 0x87 && (w >> 8) as u8 == 0xEF && (w >> 16) as u8
            == 0x2C && (w >> 24) as u8 == 0x15)
        &&& (w == 0x579F5F5F19322931 ==> w as u8 == 0x31 && (w >> 8) as u8 == 0x29 && (w >> 16) as u8
            == 0x32 && (w >> 24) as u8 == 0x19)
        &&& (w == 0x28C9BD6DD4D6CB8D ==> w as u8 == 0x8D && (w >> 8) as u8 == 0xCB && (w >> 16) as u8
            == 0xD6 && (w >> 24) as u8 == 0xD4)
        &&& (w == 0xD4A1684A8EA4E5CC ==> w as u8 == 0xCC && (w >> 8) as u8 == 0xE5 && (w >> 16) as u8
            == 0xA4 && (w >> 24) as u8 == 0x8E)
        &&& (w == 0x384245EE917F2CDF ==> w as u8 == 0xDF && (w >> 8) as u8 == 0x2C && (w >> 16) as u8
            == 0x7F && (w >> 24) as u8 == 0x91)
        &&& (w == 0x3F2EC1D8B1F0856D ==> w as u8 == 0x6D && (w >> 8) as u8 == 0x85 && (w >> 16) as u8
            == 0xF0 && (w >> 24) as u8 == 0xB1)
        &&& (w == 0xFF6DA184D954B1AB ==> w as u8 == 0xAB && (w >> 8) as u8 == 0xB1 && (w >> 16) as u8
            == 0x54 && (w >> 24) as u8 == 0xD9)
        &&& (w == 0x5129B4416549343D ==> w as u8 == 0x3D && (w >> 8) as u8 == 0x34 && (w >> 16) as u8
            == 0x49 && (w >> 24) as u8 == 0x65)
    }) by (bit_vector);
}

/// A 16-bit entry is its high byte over its low byte.
proof fn lemma_join(w: u64)
    ensures
        (w as u8) as u16 | (((w >> 8) as u8) as u16) << 8 == w as u16,
        ((w >> 16) as u8) as u16 | (((w >> 24) as u8) as u16) << 8 == (w >> 16) as u16,
{
    assert((w as u8) as u16 | (((w >> 8) as u8) as u16) << 8 == w as u16) by (bit_vector);
    assert(((w >> 16) as u8) as u16 | (((w >> 24) as u8) as u16) << 8 == (w >> 16) as u16)
        by (bit_vector);
}

/// The byte planes, joined, are the nibble tables.
pub proof fn lemma_entries(n: u8)
    requires
        n < 16,
    ensures
        A_LO@[n as int] as u16 | ((A_HI@[n as int] as u16) << 8) == a_entry(n),
        B_LO@[n as int] as u16 | ((B_HI@[n as int] as u16) << 8) == b_entry(n),
{
    lemma_planes(n);
    lemma_join(splitmix_word(n as u64));
}

/// Derives the byte planes `(A_LO, A_HI, B_LO, B_HI)` from the seed.
pub fn gen_tables() -> (planes: ([u8; 16], [u8; 16], [u8; 16], [u8; 16]))
    ensures
        planes.0@ == A_LO@,
        planes.1@ == A_HI@,
        planes.2@ == B_LO@,
        planes.3@ == B_HI@,
        forall|n: u8|
            #![trigger splitmix_word(n as u64)]
            n < 16 ==> {
                &&& planes.0@[n as int] == splitmix_word(n as u64) as u8
                &&& planes.1@[n as int] == (splitmix_word(n as u64) >> 8) as u8
                &&& planes.2@[n as int] == (splitmix_word(n as u64) >> 16) as u8
                &&& planes.3@[n as int] == (splitmix_word(n as u64) >> 24) as u8
            },
{
    let mut a_lo = [0u8; 16];
    let mut a_hi = [0u8; 16];
    let mut b_lo = [0u8; 16];
    let mut b_hi = [0u8; 16];
    let mut s: u64 = SEED;
    let mut i: usize = 0;
    while i < 16
        invariant
            i <= 16,
            i == 0 ==> s == SEED,
            i > 0 ==> s == splitmix_state((i - 1) as u64),
            forall|n: u8|
                #![trigger splitmix_word(n as u64)]
                n < i ==> {
                    &&& a_lo@[n as int] == splitmix_word(n as u64) as u8
                    &&& a_hi@[n as int] == (splitmix_word(n as u64) >> 8) as u8
                    &&& b_lo@[n as int] == (splitmix_word(n as u64) >> 16) as u8
                    &&& b_hi@[n as int] == (splitmix_word(n as u64) >> 24) as u8
                },
        decreases 16 - i,
    {
        let ghost prev = s;
        s = s.wrapping_add(GAMMA);
        let mut z: u64 = s;
        z = (z ^ (z >> 30)).wrapping_mul(MIX_1);
        proof {
            lemma_advance(prev, i as u64);
            lemma_wrapping_mul(s ^ (s >> 30), MIX_1);
            lemma_wrapping_mul(z ^ (z >> 27), MIX_2);
        }
        z = (z ^ (z >> 27)).wrapping_mul(MIX_2);
        z = z ^ (z >> 31);
        assert(z == splitmix_word(i as u64));
        a_lo[i] = z as u8;
        a_hi[i] = (z >> 8) as u8;
        b_lo[i] = (z >> 16) as u8;
        b_hi[i] = (z >> 24) as u8;
        i = i + 1;
    }
    proof {
        assert forall|n: int| 0 <= n < 16 implies a_lo@[n] == A_LO@[n] && a_hi@[n] == A_HI@[n]
            && b_lo@[n] == B_LO@[n] && b_hi@[n] == B_HI@[n] by {
            lemma_planes(n as u8);
            let w = splitmix_word((n as u8) as u64);
        }
    }
    (a_lo, a_hi, b_lo, b_hi)
}

/// One increment moves the stream on by one state.
proof fn lemma_advance(prev: u64, i: u64)
    requires
        i < 16,
        i == 0 ==> prev == SEED,
        i > 0 ==> prev == splitmix_state((i - 1) as u64),
    ensures
        prev.wrapping_add(GAMMA) == splitmix_state(i),
{
    let g: u64 = GAMMA;
    assert(prev.wrapping_add(g) == (prev + g) as u64) by {
        assert(prev + g > u64::MAX ==> (prev + g - 0x1_0000_0000_0000_0000) as u64 == (prev
            + g) as u64) by (bit_vector);
    }
    if i == 0 {
        assert((SEED + GAMMA) as u64 == (SEED + (0u64 + 1) * GAMMA) as u64) by (bit_vector);
    } else {
        let k = (i - 1) as u64;
        assert(((SEED + (k + 1) * GAMMA) as u64 + GAMMA) as u64 == (SEED + (i + 1)
            * GAMMA) as u64) by (bit_vector)
            requires
                i < 16,
                k + 1 == i,
        ;
    }
}

/// Wrapping multiplication is multiplication modulo 2^64.
proof fn lemma_wrapping_mul(x: u64, y: u64)
    ensures
        x.wrapping_mul(y) == (x * y) as u64,
{
    assert((x * y) as u64 == ((x * y) % 0x1_0000_0000_0000_0000) as u64) by (bit_vector);
}

/// Either half of a byte is one of 16.
pub proof fn lemma_halves(b: u8)
    ensures
        b & 15 < 16,
        b >> 4 < 16,
{
    assert(b & 15 < 16 && b >> 4 < 16) by (bit_vector);
}

/// The table value of one byte, looked up nibble by nibble.
pub fn entry(b: u8) -> (t: u16)
    ensures
        t == table_entry(b),
{
    let lo: u8 = b & 15;
    let hi: u8 = b >> 4;
    proof {
        lemma_halves(b);
        lemma_entries(lo);
        lemma_entries(hi);
    }
    let a: u16 = A_LO[lo as usize] as u16 | ((A_HI[lo as usize] as u16) << 8);
    let bb: u16 = B_LO[hi as usize] as u16 | ((B_HI[hi as usize] as u16) << 8);
    a ^ bb
}

/// The materialized 256-entry table, `T[b] = A[b & 15] ^ B[b >> 4]`.
pub fn gen_t() -> (t: [u16; 256])
    ensures
        forall|b: u8| #[trigger] t@[b as int] == table_entry(b),
{
    let mut t = [0u16; 256];
    let mut b: usize = 0;
    while b < 256
        invariant
            b <= 256,
            forall|c: u8| c < b ==> #[trigger] t@[c as int] == table_entry(c),
        decreases 256 - b,
    {
        t[b] = entry(b as u8);
        b = b + 1;
    }
    t
}

} // verus!
