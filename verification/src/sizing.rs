//! Chunk sizing, as mathematics: where the next cut falls, and how an input
//! falls apart into chunks.
use vstd::arithmetic::logarithm::*;
use vstd::arithmetic::power2::*;
use vstd::prelude::*;

use crate::rolling;

verus! {

/// The three sizes of a configuration.
pub struct Sizes {
    pub min: int,
    pub avg: int,
    pub max: int,
}

/// `n` is a power of two.
pub open spec fn is_power_of_two(n: int) -> bool {
    exists|k: nat| n == #[trigger] pow2(k)
}

impl Sizes {
    /// Powers of two with `min < avg < max`, and an average of at most 16 KiB:
    /// the hard mask takes two bits more than the average has, of 16.
    pub open spec fn valid(self) -> bool {
        &&& is_power_of_two(self.min)
        &&& is_power_of_two(self.avg)
        &&& is_power_of_two(self.max)
        &&& self.min < self.avg < self.max
        &&& self.avg <= 0x4000
    }

    /// The order of the sizes, which is all that the cut rule itself needs.
    pub open spec fn ordered(self) -> bool {
        0 < self.min < self.avg < self.max
    }

    /// The mask up to the average: two bits stricter than the average asks.
    pub open spec fn hard_mask(self) -> u16 {
        top_mask((log(2, self.avg) + 2) as nat) as u16
    }

    /// The mask past the average: two bits looser than the average asks. An
    /// average of 2 has one bit to give, and its easy mask is empty.
    pub open spec fn easy_mask(self) -> u16 {
        top_mask(
            if log(2, self.avg) < 2 {
                0
            } else {
                (log(2, self.avg) - 2) as nat
            },
        ) as u16
    }

    /// The mask that decides on a chunk length of `k`.
    pub open spec fn mask_at(self, k: int) -> u16 {
        if k <= self.avg {
            self.hard_mask()
        } else {
            self.easy_mask()
        }
    }

    /// The length at which a chunk of an input of `n` bytes is cut by force.
    pub open spec fn limit(self, n: int) -> int {
        if n < self.max {
            n
        } else {
            self.max
        }
    }

    /// The rolling state at a chunk length of `k`. The first `min` bytes of a
    /// chunk are not hashed.
    pub open spec fn state_at(self, data: Seq<u8>, k: int) -> u16 {
        rolling::state_after(0, data.subrange(self.min, k))
    }

    /// The content asks for a cut at a chunk length of `k`.
    pub open spec fn is_boundary(self, data: Seq<u8>, k: int) -> bool {
        self.state_at(data, k) & self.mask_at(k) == 0
    }

    /// The chunk that starts `data` has length `k`: all of it where no more
    /// than `min` bytes are left; else the first length above `min` at which
    /// the content asks for a cut, or the limit where it asks for none.
    pub open spec fn is_cut(self, data: Seq<u8>, k: int) -> bool {
        if data.len() <= self.min {
            k == data.len()
        } else {
            &&& self.min < k <= self.limit(data.len() as int)
            &&& self.is_boundary(data, k) || k == self.limit(data.len() as int)
            &&& forall|j: int| self.min < j < k ==> !#[trigger] self.is_boundary(data, j)
        }
    }

    /// The length of the chunk that starts `data`.
    pub open spec fn next_cut(self, data: Seq<u8>) -> int {
        choose|k: int| self.is_cut(data, k)
    }

    /// The rolling state at the cut; zero for a chunk too short to be hashed.
    pub open spec fn cut_hash(self, data: Seq<u8>) -> u64 {
        if data.len() <= self.min {
            0
        } else {
            self.state_at(data, self.next_cut(data)) as u64
        }
    }
}

/// The top `bits` of 16 bits.
pub open spec fn top_mask(bits: nat) -> int {
    0x1_0000 - pow2((16 - bits) as nat)
}

/// One chunk of an input.
pub struct Cut {
    pub offset: int,
    pub length: int,
    pub hash: u64,
}

/// The chunks of `data` from the cut at `from` on.
pub open spec fn cuts_from(s: Sizes, data: Seq<u8>, from: int) -> Seq<Cut>
    decreases data.len() - from,
    when s.ordered() && 0 <= from
{
    if from >= data.len() {
        Seq::empty()
    } else {
        proof {
            lemma_next_cut(s, data.skip(from));
        }
        let c = s.next_cut(data.skip(from));
        seq![Cut { offset: from, length: c, hash: s.cut_hash(data.skip(from)) }] + cuts_from(
            s,
            data,
            from + c,
        )
    }
}

/// The chunks of `data`.
pub open spec fn cuts(s: Sizes, data: Seq<u8>) -> Seq<Cut> {
    cuts_from(s, data, 0)
}

/// Where the listed chunks end.
pub open spec fn end_offsets(list: Seq<Cut>) -> Seq<int> {
    list.map_values(|c: Cut| c.offset + c.length)
}

/// How long the listed chunks are.
pub open spec fn lengths(list: Seq<Cut>) -> Seq<int> {
    list.map_values(|c: Cut| c.length)
}

/// The bytes of the listed chunks of `data`.
pub open spec fn chunk_bytes(data: Seq<u8>, list: Seq<Cut>) -> Seq<Seq<u8>> {
    list.map_values(|c: Cut| data.subrange(c.offset, c.offset + c.length))
}

/// Valid sizes are ordered, and all of them are positive.
pub proof fn lemma_ordered(s: Sizes)
    requires
        s.valid(),
    ensures
        s.ordered(),
{
    let k = choose|k: nat| s.min == #[trigger] pow2(k);
    lemma_pow2_pos(k);
}

/// At most one length is the cut.
pub proof fn lemma_cut_unique(s: Sizes, data: Seq<u8>, k: int)
    requires
        s.is_cut(data, k),
    ensures
        s.next_cut(data) == k,
{
    let c = s.next_cut(data);
    assert(s.is_cut(data, c));
    if data.len() > s.min {
        if c < k {
            assert(!s.is_boundary(data, c));
        } else if k < c {
            assert(!s.is_boundary(data, k));
        }
    }
}

/// A cut carries over to an input that holds the same hashed bytes up to it, if
/// it may fall there: it is a boundary, or the limit of that input.
pub proof fn lemma_cut_carries(s: Sizes, u: Seq<u8>, v: Seq<u8>)
    requires
        s.ordered(),
        s.min < u.len(),
        s.next_cut(u) <= v.len(),
        forall|k: int| s.min <= k < s.next_cut(u) ==> u[k] == v[k],
        s.is_boundary(u, s.next_cut(u)) || s.next_cut(u) == s.limit(v.len() as int),
    ensures
        s.next_cut(v) == s.next_cut(u),
        s.cut_hash(v) == s.cut_hash(u),
{
    let c = s.next_cut(u);
    lemma_next_cut(s, u);
    assert forall|j: int| s.min < j <= c implies #[trigger] s.state_at(v, j) == s.state_at(
        u,
        j,
    ) by {
        assert(v.subrange(s.min, j) =~= u.subrange(s.min, j));
    }
    assert forall|j: int| s.min < j < c implies !#[trigger] s.is_boundary(v, j) by {
        assert(!s.is_boundary(u, j));
        assert(s.state_at(v, j) == s.state_at(u, j));
    }
    assert(s.state_at(v, c) == s.state_at(u, c));
    assert(s.is_boundary(v, c) == s.is_boundary(u, c));
    assert(s.is_cut(v, c));
    lemma_cut_unique(s, v, c);
}

/// Law: every input has a next cut. It is not empty unless the input is, it
/// is at most `max`, and it is above `min` unless the input ends first.
pub proof fn lemma_next_cut(s: Sizes, data: Seq<u8>)
    requires
        s.ordered(),
    ensures
        s.is_cut(data, s.next_cut(data)),
        data.len() > 0 ==> s.next_cut(data) > 0,
        s.next_cut(data) <= data.len(),
        s.next_cut(data) <= s.max,
        data.len() > s.min ==> s.next_cut(data) > s.min,
{
    let n = data.len() as int;
    if n <= s.min {
        assert(s.is_cut(data, n));
    } else {
        lemma_cut_exists(s, data, s.limit(n));
    }
    let k = choose|k: int| s.is_cut(data, k);
    assert(s.is_cut(data, k));
}

/// Below a length at which a cut may fall, there is a first one.
proof fn lemma_cut_exists(s: Sizes, data: Seq<u8>, k: int)
    requires
        data.len() > s.min,
        s.min < k <= s.limit(data.len() as int),
        s.is_boundary(data, k) || k == s.limit(data.len() as int),
    ensures
        exists|c: int| s.is_cut(data, c),
    decreases k - s.min,
{
    if forall|j: int| s.min < j < k ==> !#[trigger] s.is_boundary(data, j) {
        assert(s.is_cut(data, k));
    } else {
        let j = choose|j: int| s.min < j < k && #[trigger] s.is_boundary(data, j);
        lemma_cut_exists(s, data, j);
    }
}

/// A cut that the search under the hard mask finds is the next cut.
pub proof fn lemma_hard_cut(s: Sizes, data: Seq<u8>, k: int)
    requires
        s.ordered(),
        data.len() > s.min,
        ({
            let mid = if data.len() < s.avg { data.len() as int } else { s.avg };
            rolling::first_cut(0, data.subrange(s.min, mid), s.hard_mask()) == Some(k)
        }),
    ensures
        s.next_cut(data) == s.min + k,
        ({
            let mid = if data.len() < s.avg { data.len() as int } else { s.avg };
            s.cut_hash(data) == rolling::state_after(0, data.subrange(s.min, mid).take(k)) as u64
        }),
{
    let mid = if data.len() < s.avg { data.len() as int } else { s.avg };
    let head = data.subrange(s.min, mid);
    rolling::lemma_first_cut(0, head, s.hard_mask());
    assert forall|j: int| s.min < j <= mid implies s.is_boundary(data, j) == rolling::fires(
        0,
        head,
        s.hard_mask(),
        j - s.min,
    ) by {
        assert(head.take(j - s.min) =~= data.subrange(s.min, j));
    }
    assert(head.take(k) =~= data.subrange(s.min, s.min + k));
    assert(s.is_boundary(data, s.min + k));
    assert forall|j: int| s.min < j < s.min + k implies !#[trigger] s.is_boundary(data, j) by {
        assert(!rolling::fires(0, head, s.hard_mask(), j - s.min));
    }
    assert(s.is_cut(data, s.min + k));
    lemma_cut_unique(s, data, s.min + k);
}

/// Where the search under the hard mask finds nothing, the search under the
/// easy mask, carried on from its state, decides the next cut.
pub proof fn lemma_easy_cut(s: Sizes, data: Seq<u8>)
    requires
        s.ordered(),
        data.len() > s.min,
        ({
            let mid = if data.len() < s.avg { data.len() as int } else { s.avg };
            rolling::first_cut(0, data.subrange(s.min, mid), s.hard_mask()) is None
        }),
    ensures
        ({
            let mid = if data.len() < s.avg { data.len() as int } else { s.avg };
            let h = rolling::state_after(0, data.subrange(s.min, mid));
            let tail = data.subrange(mid, s.limit(data.len() as int));
            match rolling::first_cut(h, tail, s.easy_mask()) {
                Some(k) => s.next_cut(data) == mid + k && s.cut_hash(data) == rolling::state_after(
                    h,
                    tail.take(k),
                ) as u64,
                None => s.next_cut(data) == s.limit(data.len() as int) && s.cut_hash(data)
                    == rolling::state_after(h, tail) as u64,
            }
        }),
{
    let mid = if data.len() < s.avg { data.len() as int } else { s.avg };
    let end = s.limit(data.len() as int);
    let head = data.subrange(s.min, mid);
    let h = rolling::state_after(0, head);
    let tail = data.subrange(mid, end);
    rolling::lemma_first_cut(0, head, s.hard_mask());
    rolling::lemma_first_cut(h, tail, s.easy_mask());
    assert forall|j: int| s.min < j <= mid implies !#[trigger] s.is_boundary(data, j) by {
        assert(head.take(j - s.min) =~= data.subrange(s.min, j));
        assert(!rolling::fires(0, head, s.hard_mask(), j - s.min));
    }
    assert forall|j: int| mid < j <= end implies #[trigger] s.state_at(data, j)
        == rolling::state_after(h, tail.take(j - mid)) by {
        assert(data.subrange(s.min, j) =~= head + tail.take(j - mid));
        rolling::lemma_state_concat(0, head, tail.take(j - mid));
    }
    assert forall|j: int| mid < j <= end implies #[trigger] s.is_boundary(data, j)
        == rolling::fires(h, tail, s.easy_mask(), j - mid) by {
        assert(s.state_at(data, j) == rolling::state_after(h, tail.take(j - mid)));
    }
    let c = match rolling::first_cut(h, tail, s.easy_mask()) {
        Some(k) => mid + k,
        None => end,
    };
    assert(tail.take(end - mid) =~= tail);
    assert forall|j: int| s.min < j < c implies !#[trigger] s.is_boundary(data, j) by {
        if j > mid {
            assert(!rolling::fires(h, tail, s.easy_mask(), j - mid));
        }
    }
    if c > mid {
        assert(s.state_at(data, c) == rolling::state_after(h, tail.take(c - mid)));
    } else {
        assert(tail =~= Seq::empty());
    }
    assert(s.is_cut(data, c));
    lemma_cut_unique(s, data, c);
}

/// The listed chunks, `by` bytes further on.
pub open spec fn shifted(list: Seq<Cut>, by: int) -> Seq<Cut> {
    list.map_values(|c: Cut| Cut { offset: c.offset + by, length: c.length, hash: c.hash })
}

/// Law: from a cut on, the chunks depend on the bytes after it alone. Cutting
/// what is left of an input after `by` bytes, and moving the offsets on, is
/// cutting the input from `by` on.
pub proof fn lemma_cuts_shift(s: Sizes, data: Seq<u8>, by: int, from: int)
    requires
        s.ordered(),
        0 <= by <= data.len(),
        0 <= from,
    ensures
        cuts_from(s, data, by + from) == shifted(cuts_from(s, data.skip(by), from), by),
    decreases data.len() - by - from,
{
    let rest = data.skip(by);
    if by + from < data.len() {
        assert(rest.skip(from) =~= data.skip(by + from));
        let c = s.next_cut(rest.skip(from));
        lemma_next_cut(s, rest.skip(from));
        lemma_cuts_shift(s, data, by, from + c);
        assert(cuts_from(s, data, by + from) =~= shifted(cuts_from(s, rest, from), by));
    } else {
        assert(cuts_from(s, data, by + from) =~= shifted(cuts_from(s, rest, from), by));
    }
}

/// The chunks of an input are the first one and the chunks of the rest.
pub proof fn lemma_chunks_unfold(s: Sizes, data: Seq<u8>)
    requires
        s.ordered(),
        data.len() > 0,
    ensures
        ({
            let c = s.next_cut(data);
            &&& cuts(s, data) == seq![Cut { offset: 0, length: c, hash: s.cut_hash(data) }]
                + shifted(cuts(s, data.skip(c)), c)
            &&& chunk_bytes(data, cuts(s, data)) == seq![data.take(c)] + chunk_bytes(
                data.skip(c),
                cuts(s, data.skip(c)),
            )
        }),
{
    let c = s.next_cut(data);
    lemma_next_cut(s, data);
    assert(data.skip(0) =~= data);
    lemma_cuts_shift(s, data, c, 0);
    let rest = cuts(s, data.skip(c));
    lemma_cuts_in_bounds(s, data.skip(c), 0);
    assert forall|i: int| 0 <= i < rest.len() implies data.subrange(
        (#[trigger] rest[i]).offset + c,
        rest[i].offset + c + rest[i].length,
    ) == data.skip(c).subrange(rest[i].offset, rest[i].offset + rest[i].length) by {
        assert(data.subrange(rest[i].offset + c, rest[i].offset + c + rest[i].length)
            =~= data.skip(c).subrange(rest[i].offset, rest[i].offset + rest[i].length));
    }
    assert(data.subrange(0, c) =~= data.take(c));
    assert(chunk_bytes(data, cuts(s, data)) =~= seq![data.take(c)] + chunk_bytes(
        data.skip(c),
        rest,
    ));
}

/// Every chunk lies inside the input.
pub proof fn lemma_cuts_in_bounds(s: Sizes, data: Seq<u8>, from: int)
    requires
        s.ordered(),
        0 <= from,
    ensures
        forall|i: int|
            0 <= i < cuts_from(s, data, from).len() ==> {
                let c = #[trigger] cuts_from(s, data, from)[i];
                &&& from <= c.offset
                &&& 0 < c.length
                &&& c.offset + c.length <= data.len()
            },
    decreases data.len() - from,
{
    if from < data.len() {
        let c = s.next_cut(data.skip(from));
        lemma_next_cut(s, data.skip(from));
        lemma_cuts_in_bounds(s, data, from + c);
        let rest = cuts_from(s, data, from + c);
        assert forall|i: int| 0 <= i < cuts_from(s, data, from).len() implies ({
            let d = #[trigger] cuts_from(s, data, from)[i];
            &&& from <= d.offset
            &&& 0 < d.length
            &&& d.offset + d.length <= data.len()
        }) by {
            if i > 0 {
                assert(cuts_from(s, data, from)[i] == rest[i - 1]);
            }
        }
    }
}

/// A mask of the top `bits` is met by the states below `2^(16 - bits)`.
proof fn lemma_top_mask(bits: nat, h: u16)
    requires
        bits <= 16,
    ensures
        0 <= top_mask(bits) <= 0xFFFF,
        h & (top_mask(bits) as u16) == 0 <==> h < pow2((16 - bits) as nat),
{
    lemma2_to64();
    let n = (16 - bits) as u32;
    vstd::bits::lemma_u32_shl_is_mul(1, n);
    let p = 1u32 << n;
    let m = top_mask(bits) as u16;
    assert(1 <= p <= 0x1_0000) by (bit_vector)
        requires
            n <= 16,
            p == 1u32 << n,
    ;
    assert(h & m == 0 <==> h < p) by (bit_vector)
        requires
            n <= 16,
            p == 1u32 << n,
            m == 0x1_0000 - p,
    ;
}

/// Law: with an average of `2^a` bytes, the content asks for a cut under the
/// hard mask when the top `a + 2` bits of the state are zero, and under the
/// easy mask when the top `a - 2` are. What the hard mask cuts, the easy mask
/// cuts too.
pub proof fn lemma_masks(s: Sizes, a: nat, h: u16)
    requires
        s.valid(),
        s.avg == pow2(a),
    ensures
        a <= 14,
        h & s.hard_mask() == 0 <==> h < pow2((14 - a) as nat),
        a >= 2 ==> (h & s.easy_mask() == 0 <==> h < pow2((18 - a) as nat)),
        a < 2 ==> h & s.easy_mask() == 0,
        h & s.hard_mask() == 0 ==> h & s.easy_mask() == 0,
{
    lemma2_to64();
    if a > 14 {
        lemma_pow2_strictly_increases(14, a);
    }
    lemma_log_pow(2, a);
    lemma_pow2(a);
    lemma_top_mask((a + 2) as nat, h);
    if a >= 2 {
        lemma_top_mask((a - 2) as nat, h);
        lemma_pow2_strictly_increases((14 - a) as nat, (18 - a) as nat);
    } else {
        lemma_top_mask(0, h);
    }
}

} // verus!
