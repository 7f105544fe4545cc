//! What the operations are for, in numbers. The laws here say of each result
//! what it is in terms of the inputs alone: of sizes as powers of two, of bytes,
//! of positions and of the rolling state, which the first of them fixes.
use vstd::arithmetic::logarithm::*;
use vstd::arithmetic::power2::*;
use vstd::prelude::*;

use crate::chunker::{is_kernel, Chunker};
use crate::feeder::ChunkSink;
use crate::partition;
use crate::rolling;
use crate::scan::Scan;
use crate::sizing;
use crate::sizing::{Cut, Sizes};
use crate::slice::Chunk;
use crate::stream::ByteSink;
use crate::streaming;
use crate::table;

verus! {

/// Law: nothing changes the state but bytes, and one more byte shifts it by one
/// bit and mixes in the table value of the byte.
pub proof fn lemma_state_in_numbers(h: u16, data: Seq<u8>, b: u8)
    ensures
        rolling::state_after(h, Seq::empty()) == h,
        rolling::state_after(h, data.push(b)) == (rolling::state_after(h, data) << 1)
            ^ table::table_entry(b),
{
    assert(data.push(b).drop_last() =~= data);
    assert(data.push(b).last() == b);
}

/// Law: the table value of a byte is the value of its low half in the one table,
/// mixed with that of its high half in the other.
pub proof fn lemma_table_in_numbers(b: u8, lo: u8, hi: u8)
    requires
        lo == b & 15,
        hi == b >> 4,
    ensures
        lo < 16,
        hi < 16,
        table::table_entry(b) == (table::A_LO@[lo as int] as u16 | ((table::A_HI@[lo as int] as u16)
            << 8)) ^ (table::B_LO@[hi as int] as u16 | ((table::B_HI@[hi as int] as u16) << 8)),
{
    table::lemma_halves(b);
    table::lemma_entries(lo);
    table::lemma_entries(hi);
}

/// Law: a search answers with the first position at which the state has no bit
/// in common with the mask, and with the state there; where there is none, with
/// the state at the end.
pub proof fn lemma_scan_in_numbers(data: Seq<u8>, h: u64, mask: u64)
    requires
        data.len() <= usize::MAX,
    ensures
        ({
            let start = h as u16;
            let m = mask as u16;
            let (found, state) = rolling::scan_result(data, h, mask);
            match found {
                Some(k) => {
                    &&& 1 <= k <= data.len()
                    &&& state == rolling::state_after(start, data.take(k as int)) as u64
                    &&& rolling::state_after(start, data.take(k as int)) & m == 0
                    &&& forall|j: int|
                        1 <= j < k ==> #[trigger] rolling::state_after(start, data.take(j)) & m != 0
                },
                None => {
                    &&& state == rolling::state_after(start, data) as u64
                    &&& forall|j: int|
                        1 <= j <= data.len() ==> #[trigger] rolling::state_after(
                            start,
                            data.take(j),
                        ) & m != 0
                },
            }
        }),
{
    let start = h as u16;
    let m = mask as u16;
    rolling::lemma_first_cut(start, data, m);
    match rolling::first_cut(start, data, m) {
        Some(k) => {
            assert forall|j: int| 1 <= j < k implies #[trigger] rolling::state_after(
                start,
                data.take(j),
            ) & m != 0 by {
                assert(!rolling::fires(start, data, m, j));
            }
        },
        None => {
            assert forall|j: int| 1 <= j <= data.len() implies #[trigger] rolling::state_after(
                start,
                data.take(j),
            ) & m != 0 by {
                assert(!rolling::fires(start, data, m, j));
            }
        },
    }
}

/// Law: the sizes that are taken are `2^i`, `2^a` and `2^k` with `i < a < k` and
/// `a` at most 14, and no others.
pub proof fn lemma_valid_in_numbers(s: Sizes)
    ensures
        s.valid() <==> exists|i: nat, a: nat, k: nat|
            s.min == #[trigger] pow2(i) && s.avg == #[trigger] pow2(a) && s.max
                == #[trigger] pow2(k) && i < a < k && a <= 14,
{
    lemma2_to64();
    if s.valid() {
        let i = choose|i: nat| s.min == #[trigger] pow2(i);
        let a = choose|a: nat| s.avg == #[trigger] pow2(a);
        let k = choose|k: nat| s.max == #[trigger] pow2(k);
        if i >= a {
            if i > a {
                lemma_pow2_strictly_increases(a, i);
            }
        }
        if a > k {
            lemma_pow2_strictly_increases(k, a);
        }
        if a > 14 {
            lemma_pow2_strictly_increases(14, a);
        }
        assert(s.min == pow2(i) && s.avg == pow2(a) && s.max == pow2(k));
    }
    assert forall|i: nat, a: nat, k: nat|
        s.min == #[trigger] pow2(i) && s.avg == #[trigger] pow2(a) && s.max == #[trigger] pow2(k)
            && i < a < k && a <= 14 implies s.valid() by {
        lemma_pow2_strictly_increases(i, a);
        lemma_pow2_strictly_increases(a, k);
        if a < 14 {
            lemma_pow2_strictly_increases(a, 14);
        }
    }
}

/// Law: where the next cut falls. An input of at most `min` bytes is one chunk.
/// Of a longer one, with an average of `2^a`, the chunk ends at the first length
/// above `min` at which the state over the bytes from `min` on is below
/// `2^(14 - a)`, for a length up to the average, or below `2^(18 - a)`, for one
/// past it (at once, for an average of 2); else at `max`, or at the end of the
/// input where that comes first.
pub proof fn lemma_cut_in_numbers(s: Sizes, i: nat, a: nat, k: nat, data: Seq<u8>)
    requires
        s.min == pow2(i),
        s.avg == pow2(a),
        s.max == pow2(k),
        i < a < k,
        a <= 14,
    ensures
        data.len() <= s.min ==> s.next_cut(data) == data.len() && s.cut_hash(data) == 0,
        data.len() > s.min ==> s.min < s.next_cut(data) <= s.max && s.next_cut(data) <= data.len(),
        data.len() > s.min ==> s.cut_hash(data) == rolling::state_after(
            0,
            data.subrange(s.min, s.next_cut(data)),
        ) as u64,
        data.len() > s.min && s.next_cut(data) < s.max && s.next_cut(data) < data.len()
            && s.next_cut(data) <= s.avg ==> s.cut_hash(data) < pow2((14 - a) as nat),
        data.len() > s.min && s.next_cut(data) < s.max && s.next_cut(data) < data.len() && s.avg
            < s.next_cut(data) && a >= 2 ==> s.cut_hash(data) < pow2((18 - a) as nat),
        forall|j: int|
            s.min < j < s.next_cut(data) && j <= s.avg ==> #[trigger] rolling::state_after(
                0,
                data.subrange(s.min, j),
            ) >= pow2((14 - a) as nat),
        forall|j: int|
            s.min < j < s.next_cut(data) && s.avg < j && a >= 2 ==> #[trigger] rolling::state_after(
                0,
                data.subrange(s.min, j),
            ) >= pow2((18 - a) as nat),
        data.len() > s.min && a < 2 ==> s.next_cut(data) <= s.avg + 1,
{
    lemma_valid_in_numbers(s);
    sizing::lemma_ordered(s);
    sizing::lemma_next_cut(s, data);
    let c = s.next_cut(data);
    assert(s.is_cut(data, c));
    if data.len() > s.min {
        let h = rolling::state_after(0, data.subrange(s.min, c));
        sizing::lemma_masks(s, a, h);
        assert(s.is_boundary(data, c) || c == s.max || c == data.len());
        if a < 2 && s.avg + 1 < c {
            assert(!s.is_boundary(data, s.avg + 1));
            sizing::lemma_masks(s, a, s.state_at(data, s.avg + 1));
        }
        assert forall|j: int| s.min < j < c && j <= s.avg implies #[trigger] rolling::state_after(
            0,
            data.subrange(s.min, j),
        ) >= pow2((14 - a) as nat) by {
            assert(!s.is_boundary(data, j));
            sizing::lemma_masks(s, a, rolling::state_after(0, data.subrange(s.min, j)));
        }
        assert forall|j: int| s.min < j < c && s.avg < j && a >= 2 implies
            #[trigger] rolling::state_after(0, data.subrange(s.min, j)) >= pow2((18 - a) as nat) by {
            assert(!s.is_boundary(data, j));
            sizing::lemma_masks(s, a, rolling::state_after(0, data.subrange(s.min, j)));
        }
    }
}

/// Law: what is read off a list of chunks, chunk by chunk: where they end, how
/// long they are, their bytes, and the chunks and their items further on.
pub proof fn lemma_lists_in_numbers(data: Seq<u8>, list: Seq<Cut>, by: int)
    ensures
        sizing::end_offsets(list).len() == list.len(),
        sizing::lengths(list).len() == list.len(),
        sizing::chunk_bytes(data, list).len() == list.len(),
        sizing::shifted(list, by).len() == list.len(),
        streaming::items(data, list, by).len() == list.len(),
        forall|i: int|
            0 <= i < list.len() ==> {
                let c = #[trigger] list[i];
                let moved = Cut { offset: c.offset + by, length: c.length, hash: c.hash };
                let bytes = data.subrange(c.offset, c.offset + c.length);
                &&& sizing::end_offsets(list)[i] == c.offset + c.length
                &&& sizing::lengths(list)[i] == c.length
                &&& sizing::chunk_bytes(data, list)[i] == bytes
                &&& sizing::shifted(list, by)[i] == moved
                &&& streaming::items(data, list, by)[i] == (moved, bytes)
            },
{
}

/// Law: which chunks an input has. The first begins at the start, each other
/// where the one before it ends, and the last ends at the end; each has the
/// length and the state of the next cut of what is left where it begins.
pub proof fn lemma_chunks_in_numbers(s: Sizes, data: Seq<u8>)
    requires
        0 < s.min < s.avg < s.max,
    ensures
        ({
            let list = sizing::cuts(s, data);
            &&& data.len() == 0 <==> list.len() == 0
            &&& data.len() > 0 ==> list[0].offset == 0
            &&& data.len() > 0 ==> list.last().offset + list.last().length == data.len()
            &&& forall|i: int|
                0 <= i < list.len() - 1 ==> #[trigger] list[i].offset + list[i].length == list[i
                    + 1].offset
            &&& forall|i: int|
                0 <= i < list.len() ==> {
                    let c = #[trigger] list[i];
                    &&& 0 <= c.offset < data.len()
                    &&& 0 < c.length
                    &&& c.offset + c.length <= data.len()
                    &&& c.length == s.next_cut(data.skip(c.offset))
                    &&& c.hash == s.cut_hash(data.skip(c.offset))
                }
            &&& sizing::end_offsets(list) == Seq::new(
                list.len(),
                |i: int| list[i].offset + list[i].length,
            )
            &&& sizing::lengths(list) == Seq::new(list.len(), |i: int| list[i].length)
            &&& sizing::chunk_bytes(data, list) == Seq::new(
                list.len(),
                |i: int| data.subrange(list[i].offset, list[i].offset + list[i].length),
            )
        }),
{
    let list = sizing::cuts(s, data);
    partition::lemma_contiguous(s, data);
    sizing::lemma_cuts_in_bounds(s, data, 0);
    assert forall|i: int| 0 <= i < list.len() implies ({
        let c = #[trigger] list[i];
        &&& 0 <= c.offset < data.len()
        &&& 0 < c.length
        &&& c.offset + c.length <= data.len()
        &&& c.length == s.next_cut(data.skip(c.offset))
        &&& c.hash == s.cut_hash(data.skip(c.offset))
    }) by {
        partition::lemma_cuts_skip(s, data, 0, i);
    }
    assert(sizing::end_offsets(list) =~= Seq::new(
        list.len(),
        |i: int| list[i].offset + list[i].length,
    ));
    assert(sizing::lengths(list) =~= Seq::new(list.len(), |i: int| list[i].length));
    assert(sizing::chunk_bytes(data, list) =~= Seq::new(
        list.len(),
        |i: int| data.subrange(list[i].offset, list[i].offset + list[i].length),
    ));
}

/// The two masks as numbers, for an average of `2^a`.
proof fn lemma_mask_numbers(s: Sizes, a: nat)
    requires
        s.avg == pow2(a),
        a <= 14,
    ensures
        s.hard_mask() as u64 == 0x1_0000 - pow2((14 - a) as nat),
        a >= 2 ==> s.easy_mask() as u64 == 0x1_0000 - pow2((18 - a) as nat),
        a < 2 ==> s.easy_mask() as u64 == 0,
{
    lemma2_to64();
    lemma_log_pow(2, a);
    lemma_pow2(a);
    lemma_pow2_pos((14 - a) as nat);
    if a >= 2 {
        lemma_pow2_pos((18 - a) as nat);
        if a > 2 {
            lemma_pow2_strictly_increases((18 - a) as nat, 16);
        }
    }
    if a > 0 {
        lemma_pow2_strictly_increases((14 - a) as nat, 14);
    }
}

/// Law: what a supplied search is asked, and what comes of its answers, with an
/// average of `2^a`. About an input of at most `min` bytes it is not asked. About
/// a longer one it is asked from `min` to the average, from the state 0 and with
/// the mask `2^16 - 2^(14 - a)`, and, where it finds nothing, from there to the
/// maximum, from the state it answered with and with the mask
/// `2^16 - 2^(18 - a)`. Its answers count from where each search began.
pub proof fn lemma_supplied_search<F: Fn(&[u8], u64, u64) -> Scan>(
    c: Chunker,
    a: nat,
    hard: u64,
    easy: u64,
    data: Seq<u8>,
    f: F,
    len: usize,
    hash: u64,
)
    requires
        c@.avg == pow2(a),
        a <= 14,
        hard == 0x1_0000 - pow2((14 - a) as nat),
        a >= 2 ==> easy == 0x1_0000 - pow2((18 - a) as nat),
        a < 2 ==> easy == 0,
        c.cut_by(data, f, len, hash),
    ensures
        data.len() <= c@.min ==> len == data.len() && hash == 0,
        data.len() > c@.min ==> exists|d1: &[u8], r1: Scan|
            {
                let n = data.len();
                let mid = if n < c@.avg {
                    n as int
                } else {
                    c@.avg
                };
                let end = if n < c@.max {
                    n as int
                } else {
                    c@.max
                };
                &&& d1@ == data.subrange(c@.min, mid)
                &&& #[trigger] f.ensures((d1, 0, hard), r1)
                &&& match r1.0 {
                    Some(k) => len == c@.min + k && hash == r1.1,
                    None => exists|d2: &[u8], r2: Scan|
                        {
                            &&& d2@ == data.subrange(mid, end)
                            &&& #[trigger] f.ensures((d2, r1.1, easy), r2)
                            &&& hash == r2.1
                            &&& match r2.0 {
                                Some(k) => len == mid + k,
                                None => len == end,
                            }
                        },
                }
            },
{
    lemma_mask_numbers(c@, a);
    if data.len() > c@.min {
        let n = data.len();
        let mid = if n < c@.avg {
            n as int
        } else {
            c@.avg
        };
        let end = if n < c@.max {
            n as int
        } else {
            c@.max
        };
        let (d1, r1) = choose|d1: &[u8], r1: Scan| #[trigger]
            c.asked_hard(data, f, d1, r1) && match r1.0 {
                Some(k) => len == c@.min + k && hash == r1.1,
                None => exists|d2: &[u8], r2: Scan| #[trigger]
                    c.asked_easy(data, f, r1.1, d2, r2) && hash == r2.1 && match r2.0 {
                        Some(k) => len == c.normal_end(n as int) + k,
                        None => len == c@.limit(n as int),
                    },
            };
        assert(f.ensures((d1, 0, hard), r1));
        if r1.0 is None {
            let (d2, r2) = choose|d2: &[u8], r2: Scan| #[trigger]
                c.asked_easy(data, f, r1.1, d2, r2) && hash == r2.1 && match r2.0 {
                    Some(k) => len == c.normal_end(n as int) + k,
                    None => len == c@.limit(n as int),
                };
            assert(f.ensures((d2, r1.1, easy), r2));
            assert(d2@ == data.subrange(mid, end));
        }
    }
}

/// Law: a search that takes everything and never answers with more than it was
/// given can be supplied for any input.
pub proof fn lemma_any_search<F: Fn(&[u8], u64, u64) -> Scan>(c: Chunker, data: Seq<u8>, f: F)
    requires
        c.wf(),
        data.len() <= usize::MAX,
        forall|d: &[u8], h: u64, m: u64| #[trigger] f.requires((d, h, m)),
        forall|d: &[u8], h: u64, m: u64, r: Scan| #[trigger]
            f.ensures((d, h, m), r) ==> match r.0 {
                Some(k) => k <= d@.len(),
                None => true,
            },
    ensures
        c.answerable(data, f),
{
    sizing::lemma_ordered(c@);
}

/// Law: what makes a kernel. Whatever answers each search with the first firing
/// position and the state there, or with nothing and the state at the end, is
/// one.
pub proof fn lemma_kernel<F: Fn(&[u8], u64, u64) -> Scan>(f: F)
    requires
        forall|d: &[u8], h: u64, m: u64, r: Scan| #[trigger]
            f.ensures((d, h, m), r) ==> match r.0 {
                Some(k) => {
                    &&& 1 <= k <= d@.len()
                    &&& rolling::state_after(h as u16, d@.take(k as int)) & (m as u16) == 0
                    &&& forall|j: int|
                        1 <= j < k ==> #[trigger] rolling::state_after(h as u16, d@.take(j)) & (
                        m as u16) != 0
                    &&& r.1 == rolling::state_after(h as u16, d@.take(k as int)) as u64
                },
                None => {
                    &&& forall|j: int|
                        1 <= j <= d@.len() ==> #[trigger] rolling::state_after(
                            h as u16,
                            d@.take(j),
                        ) & (m as u16) != 0
                    &&& r.1 == rolling::state_after(h as u16, d@) as u64
                },
            },
    ensures
        is_kernel(f),
{
    assert forall|d: &[u8], h: u64, m: u64, r: Scan| #[trigger] f.ensures((d, h, m), r) implies r
        == rolling::scan_result(d@, h, m) by {
        let g = h as u16;
        let n = m as u16;
        rolling::lemma_first_cut(g, d@, n);
        match r.0 {
            Some(k) => {
                assert forall|j: int| 1 <= j < k implies !rolling::fires(g, d@, n, j) by {
                    assert(rolling::state_after(g, d@.take(j)) & n != 0);
                }
                assert(rolling::is_first_cut(g, d@, n, k as int));
                rolling::lemma_first_cut_unique(g, d@, n, k as int);
            },
            None => {
                assert forall|j: int| 1 <= j <= d@.len() implies !rolling::fires(g, d@, n, j) by {
                    assert(rolling::state_after(g, d@.take(j)) & n != 0);
                }
            },
        }
    }
}

/// Law: what a collecting vector has taken is its elements.
pub proof fn lemma_byte_sink(out: Vec<Vec<u8>>)
    ensures
        out.received().len() == out@.len(),
        forall|i: int| 0 <= i < out@.len() ==> #[trigger] out.received()[i] == out@[i]@,
{
}

/// Law: what a collecting vector of chunks has taken is its elements, field by
/// field.
pub proof fn lemma_chunk_sink(out: Vec<(Chunk, Vec<u8>)>)
    ensures
        out.received().len() == out@.len(),
        forall|i: int|
            0 <= i < out@.len() ==> {
                let (c, bytes) = #[trigger] out.received()[i];
                &&& c.offset == out@[i].0.offset
                &&& c.length == out@[i].0.length
                &&& c.hash == out@[i].0.hash
                &&& bytes == out@[i].1@
            },
{
}

/// Law: what an input settles. It is the first chunks of the input, as many as
/// begin `max` bytes or more before its end, with their bytes; the rest of the
/// input is left.
pub proof fn lemma_settled_in_numbers(s: Sizes, data: Seq<u8>, by: int)
    requires
        0 < s.min < s.avg < s.max,
    ensures
        ({
            let all = sizing::cuts(s, data);
            let bytes = streaming::settled_bytes(s, data);
            let items = streaming::items(data, streaming::settled(s, data), by);
            let n = bytes.len() as int;
            &&& items.len() == n <= all.len()
            &&& forall|i: int|
                0 <= i < all.len() ==> (i < n <==> (#[trigger] all[i]).offset + s.max
                    <= data.len())
            &&& forall|i: int|
                0 <= i < n ==> #[trigger] bytes[i] == data.subrange(
                    all[i].offset,
                    all[i].offset + all[i].length,
                )
            &&& forall|i: int|
                0 <= i < n ==> {
                    let (c, b) = #[trigger] items[i];
                    &&& c.offset == all[i].offset + by
                    &&& c.length == all[i].length
                    &&& c.hash == all[i].hash
                    &&& b == bytes[i]
                }
            &&& streaming::settled_end(s, data, 0) == if n == 0 {
                0
            } else {
                all[n - 1].offset + all[n - 1].length
            }
            &&& streaming::unsettled(s, data) == data.skip(streaming::settled_end(s, data, 0))
        }),
{
    streaming::lemma_settled_chunks(s, data);
    streaming::lemma_settled_in_bounds(s, data, 0);
    partition::lemma_contiguous(s, data);
    lemma_settled_end_in_numbers(s, data, 0);
    let n = streaming::settled(s, data).len() as int;
    if n > 0 {
        assert(streaming::settled(s, data)[n - 1] == sizing::cuts(s, data)[n - 1]);
    }
}

/// Where the settled chunks from a cut on end.
proof fn lemma_settled_end_in_numbers(s: Sizes, data: Seq<u8>, from: int)
    requires
        s.ordered(),
        0 <= from,
    ensures
        ({
            let list = streaming::settled_from(s, data, from);
            streaming::settled_end(s, data, from) == if list.len() == 0 {
                from
            } else {
                list.last().offset + list.last().length
            }
        }),
    decreases data.len() - from,
{
    if data.len() - from >= s.max {
        let c = s.next_cut(data.skip(from));
        sizing::lemma_next_cut(s, data.skip(from));
        lemma_settled_end_in_numbers(s, data, from + c);
        let list = streaming::settled_from(s, data, from);
        let rest = streaming::settled_from(s, data, from + c);
        if rest.len() > 0 {
            assert(list.last() == rest.last());
        } else {
            assert(list.last() == list[0]);
        }
    }
}

/// Law: pushing pieces is pushing all but the last, and then the last with what
/// was left before it.
pub proof fn lemma_feed_step(s: Sizes, pieces: Seq<Seq<u8>>, piece: Seq<u8>)
    ensures
        streaming::feed(s, Seq::empty(), Seq::empty()) == (
            Seq::<Seq<u8>>::empty(),
            Seq::<u8>::empty(),
        ),
        ({
            let (emitted, left) = streaming::feed(s, Seq::empty(), pieces);
            streaming::feed(s, Seq::empty(), pieces.push(piece)) == (
                emitted + streaming::settled_bytes(s, left + piece),
                streaming::unsettled(s, left + piece),
            )
        }),
        streaming::feed_items(s, Seq::empty()) == (
            Seq::<(Cut, Seq<u8>)>::empty(),
            Seq::<u8>::empty(),
            0int,
        ),
        ({
            let (emitted, left, by) = streaming::feed_items(s, pieces);
            let seen = left + piece;
            streaming::feed_items(s, pieces.push(piece)) == (
                emitted + streaming::items(seen, streaming::settled(s, seen), by),
                streaming::unsettled(s, seen),
                by + streaming::settled_end(s, seen, 0),
            )
        }),
{
    assert(pieces.push(piece).drop_last() =~= pieces);
}

/// Law: what a vector holds after pieces were pushed into a stream and the
/// stream was finished. It has one element per chunk of the pieces put together,
/// and each element holds the bytes of its chunk.
pub proof fn lemma_collected_stream(s: Sizes, pieces: Seq<Seq<u8>>, out: Vec<Vec<u8>>)
    requires
        0 < s.min < s.avg < s.max,
        ({
            let (emitted, left) = streaming::feed(s, Seq::empty(), pieces);
            out.received() == emitted + sizing::chunk_bytes(left, sizing::cuts(s, left))
        }),
    ensures
        ({
            let data = pieces.flatten();
            let list = sizing::cuts(s, data);
            &&& out@.len() == list.len()
            &&& forall|i: int|
                0 <= i < list.len() ==> (#[trigger] out@[i])@ == data.subrange(
                    list[i].offset,
                    list[i].offset + list[i].length,
                )
            &&& Seq::new(out@.len(), |i: int| out@[i]@).flatten() == data
        }),
{
    let data = pieces.flatten();
    let list = sizing::cuts(s, data);
    streaming::lemma_stream_matches_slice(s, pieces);
    lemma_byte_sink(out);
    let whole = sizing::chunk_bytes(data, list);
    assert(out.received() == whole);
    assert forall|i: int| 0 <= i < list.len() implies (#[trigger] out@[i])@ == data.subrange(
        list[i].offset,
        list[i].offset + list[i].length,
    ) by {
        assert(out.received()[i] == whole[i]);
    }
    partition::lemma_partition(s, data);
    assert(Seq::new(out@.len(), |i: int| out@[i]@) =~= whole);
}

/// Law: what a vector holds after pieces were pushed into a feeder and the
/// feeder was finished. It has one element per chunk of the pieces put together,
/// with its place in the whole, its state and its bytes.
pub proof fn lemma_collected_feeder(
    s: Sizes,
    pieces: Seq<Seq<u8>>,
    out: Vec<(Chunk, Vec<u8>)>,
)
    requires
        0 < s.min < s.avg < s.max,
        ({
            let (emitted, left, by) = streaming::feed_items(s, pieces);
            out.received() == emitted + streaming::items(left, sizing::cuts(s, left), by)
        }),
    ensures
        ({
            let data = pieces.flatten();
            let list = sizing::cuts(s, data);
            &&& out@.len() == list.len()
            &&& forall|i: int|
                0 <= i < list.len() ==> {
                    let (c, bytes) = #[trigger] out@[i];
                    &&& c.offset == list[i].offset
                    &&& c.length == list[i].length
                    &&& c.hash == list[i].hash
                    &&& bytes@ == data.subrange(
                        list[i].offset,
                        list[i].offset + list[i].length,
                    )
                }
        }),
{
    let data = pieces.flatten();
    let list = sizing::cuts(s, data);
    streaming::lemma_feeder_matches_slice(s, pieces);
    lemma_chunk_sink(out);
    let whole = streaming::items(data, list, 0);
    assert(out.received() == whole);
    assert forall|i: int| 0 <= i < list.len() implies ({
        let (c, bytes) = #[trigger] out@[i];
        &&& c.offset == list[i].offset
        &&& c.length == list[i].length
        &&& c.hash == list[i].hash
        &&& bytes@ == data.subrange(list[i].offset, list[i].offset + list[i].length)
    }) by {
        assert(out.received()[i] == whole[i]);
    }
}

} // verus!
