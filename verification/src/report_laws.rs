//! What the figures of a report are for: how they follow from the lists that
//! they are made from, and how the figures of different lists relate.
use std::collections::hash_map::DefaultHasher;
use vstd::arithmetic::power2::*;
use vstd::bytes::*;
use vstd::prelude::*;
use vstd::std_specs::hash::*;

use crate::report;
use crate::report::{ByteOrder, Comparison, Corpus, FileStats};
use crate::sizing;
use crate::sizing::Sizes;

verus! {

/// Law: a sum starts at zero and grows by each entry that is picked; a count
/// grows by one.
pub proof fn lemma_sum_step(lens: Seq<usize>, p: spec_fn(int) -> bool, n: int)
    requires
        0 <= n < lens.len(),
    ensures
        report::sum_where(lens, p, 0) == 0,
        report::sum_where(lens, p, n + 1) == report::sum_where(lens, p, n) + if p(n) {
            lens[n] as int
        } else {
            0
        },
        report::count_where(p, 0) == 0,
        report::count_where(p, n + 1) == report::count_where(p, n) + if p(n) {
            1int
        } else {
            0
        },
{
}

/// Law: the total of no lengths is zero, and one more length adds to it.
pub proof fn lemma_total_push(lens: Seq<usize>, l: usize)
    ensures
        report::total(Seq::empty()) == 0,
        report::total(lens.push(l)) == report::total(lens) + l,
{
    report::lemma_sum_prefix(lens, lens.push(l), |i: int| true, lens.len() as int);
}

/// A sum over two lists put together is the sum of their sums.
proof fn lemma_sum_concat(a: Seq<usize>, b: Seq<usize>, p: spec_fn(int) -> bool, n: int)
    requires
        0 <= n <= b.len(),
    ensures
        report::sum_where(a + b, p, a.len() + n) == report::sum_where(a, p, a.len() as int)
            + report::sum_where(b, |i: int| p(a.len() + i), n),
        report::count_where(p, a.len() + n) == report::count_where(p, a.len() as int)
            + report::count_where(|i: int| p(a.len() + i), n),
    decreases n,
{
    if n == 0 {
        report::lemma_sum_prefix(a, a + b, p, a.len() as int);
    } else {
        lemma_sum_concat(a, b, p, n - 1);
    }
}

/// Law: what makes the record of a file well-formed is that there is one hash
/// per length and that the lengths add up to the bytes.
pub proof fn lemma_file_stats(st: FileStats)
    ensures
        st.wf() <==> st.hashes@.len() == st.lens@.len() && report::total(st.lens@) == st.bytes,
{
}

/// Law: what is hashed of a chunk is its length and all of its bytes.
pub proof fn lemma_hash_of_all_bytes(order: ByteOrder, bytes: Seq<u8>)
    ensures
        report::chunk_hash_of(order, bytes) == DefaultHasher::spec_finish(
            seq![report::native_bytes(order, bytes.len() as usize), bytes],
        ),
{
}

/// Law: the length is fed as a number of the machine: all of its bytes, lowest
/// first or highest first. Different numbers differ in them.
pub proof fn lemma_native_bytes(n: usize, m: usize, order: ByteOrder)
    ensures
        usize::BITS == 64 ==> report::native_bytes(ByteOrder::Little, n) == spec_u64_to_le_bytes(
            n as u64,
        ),
        usize::BITS != 64 ==> report::native_bytes(ByteOrder::Little, n) == spec_u32_to_le_bytes(
            n as u32,
        ),
        report::native_bytes(ByteOrder::Big, n) == report::native_bytes(
            ByteOrder::Little,
            n,
        ).reverse(),
        report::native_bytes(order, n).len() * 8 == usize::BITS,
        report::native_bytes(order, n) == report::native_bytes(order, m) ==> n == m,
{
    lemma_auto_spec_u64_to_from_le_bytes();
    lemma_auto_spec_u32_to_from_le_bytes();
    let x = report::native_bytes(ByteOrder::Little, n);
    let y = report::native_bytes(ByteOrder::Little, m);
    assert(spec_u64_to_le_bytes(n as u64).len() == 8);
    assert(spec_u64_to_le_bytes(m as u64).len() == 8);
    assert(spec_u32_to_le_bytes(n as u32).len() == 4);
    assert(spec_u32_to_le_bytes(m as u32).len() == 4);
    if x.reverse() == y.reverse() {
        assert(x =~= x.reverse().reverse());
        assert(y =~= y.reverse().reverse());
    }
    if x == y {
        if usize::BITS == 64 {
            assert(n as u64 == m as u64);
        } else {
            assert(n as u32 == m as u32);
        }
    }
}

/// Law: two chunks are fed to the hasher alike only if they are equal.
pub proof fn lemma_fed_alike(order: ByteOrder, x: Seq<u8>, y: Seq<u8>)
    requires
        seq![report::native_bytes(order, x.len() as usize), x] == seq![
            report::native_bytes(order, y.len() as usize),
            y,
        ],
    ensures
        x == y,
{
    let a = seq![report::native_bytes(order, x.len() as usize), x];
    let b = seq![report::native_bytes(order, y.len() as usize), y];
    assert(a[1] == b[1]);
}

/// Law: the lengths and hashes of a file are those of its chunks, one by one.
pub proof fn lemma_file_in_numbers(order: ByteOrder, s: Sizes, data: Seq<u8>)
    requires
        0 < s.min < s.avg < s.max,
        data.len() <= usize::MAX,
    ensures
        ({
            let list = sizing::cuts(s, data);
            &&& report::chunk_lens_of(s, data).len() == list.len()
            &&& report::chunk_hashes_of(order, s, data).len() == list.len()
            &&& forall|i: int|
                0 <= i < list.len() ==> #[trigger] report::chunk_lens_of(s, data)[i]
                    == list[i].length
            &&& forall|i: int|
                0 <= i < list.len() ==> #[trigger] report::chunk_hashes_of(order, s, data)[i]
                    == DefaultHasher::spec_finish(
                    seq![
                        report::native_bytes(order, list[i].length as usize),
                        data.subrange(list[i].offset, list[i].offset + list[i].length),
                    ],
                )
        }),
{
    sizing::lemma_cuts_in_bounds(s, data, 0);
}

/// Law: a chunk repeats where its hash is known or stands anywhere before it,
/// however far; what repeats and what does not are the sums of those lengths.
pub proof fn lemma_repeats_in_numbers(known: Set<u64>, hashes: Seq<u64>, lens: Seq<usize>)
    requires
        hashes.len() == lens.len(),
    ensures
        ({
            let p = |i: int|
                known.contains(hashes[i]) || exists|k: int|
                    0 <= k < i && #[trigger] hashes[k] == hashes[i];
            &&& report::repeated(known, hashes, lens) == report::sum_where(
                lens,
                p,
                lens.len() as int,
            )
            &&& report::novel(known, hashes, lens) == report::sum_where(
                lens,
                |i: int| !p(i),
                lens.len() as int,
            )
            &&& forall|i: int|
                0 <= i < hashes.len() ==> #[trigger] report::repeats(known, hashes, i) == p(i)
        }),
{
    let n = lens.len() as int;
    let p = |i: int|
        known.contains(hashes[i]) || exists|k: int|
            0 <= k < i && #[trigger] hashes[k] == hashes[i];
    assert forall|i: int| 0 <= i < n implies #[trigger] report::repeats(known, hashes, i) == p(
        i,
    ) by {
        let before = hashes.take(i);
        if before.contains(hashes[i]) {
            let k = before.index_of(hashes[i]);
            assert(hashes[k] == hashes[i]);
        }
        if exists|k: int| 0 <= k < i && #[trigger] hashes[k] == hashes[i] {
            let k = choose|k: int| 0 <= k < i && #[trigger] hashes[k] == hashes[i];
            assert(before[k] == hashes[i]);
        }
    }
    report::lemma_where_equal(lens, |i: int| report::repeats(known, hashes, i), p, n);
    report::lemma_where_equal(
        lens,
        |i: int| !report::repeats(known, hashes, i),
        |i: int| !p(i),
        n,
    );
}

/// Law: reading on. What repeats in two lists put together is what repeats in
/// the first, and what repeats in the second once the first is known.
pub proof fn lemma_repeated_concat(
    known: Set<u64>,
    a: Seq<u64>,
    l: Seq<usize>,
    b: Seq<u64>,
    m: Seq<usize>,
)
    requires
        a.len() == l.len(),
        b.len() == m.len(),
    ensures
        report::repeated(known, a + b, l + m) == report::repeated(known, a, l) + report::repeated(
            known + a.to_set(),
            b,
            m,
        ),
        report::novel(known, a + b, l + m) == report::novel(known, a, l) + report::novel(
            known + a.to_set(),
            b,
            m,
        ),
{
    let h = a + b;
    let p = |i: int| report::repeats(known, h, i);
    let q = |i: int| report::repeats(known, a, i);
    let r = |i: int| report::repeats(known + a.to_set(), b, i);
    let shifted = |i: int| p(l.len() + i);
    lemma_sum_concat(l, m, p, m.len() as int);
    lemma_repeats_in_numbers(known, h, l + m);
    lemma_repeats_in_numbers(known, a, l);
    lemma_repeats_in_numbers(known + a.to_set(), b, m);
    assert forall|i: int| 0 <= i < l.len() implies p(i) == #[trigger] q(i) by {
        assert(h[i] == a[i]);
        if exists|k: int| 0 <= k < i && #[trigger] h[k] == h[i] {
            let k = choose|k: int| 0 <= k < i && #[trigger] h[k] == h[i];
            assert(a[k] == a[i]);
        }
        if exists|k: int| 0 <= k < i && #[trigger] a[k] == a[i] {
            let k = choose|k: int| 0 <= k < i && #[trigger] a[k] == a[i];
            assert(h[k] == h[i]);
        }
        assert(report::repeats(known, h, i) == report::repeats(known, a, i));
    }
    assert forall|i: int| 0 <= i < m.len() implies shifted(i) == #[trigger] r(i) by {
        let j = l.len() + i;
        assert(h[j] == b[i]);
        if exists|k: int| 0 <= k < j && #[trigger] h[k] == h[j] {
            let k = choose|k: int| 0 <= k < j && #[trigger] h[k] == h[j];
            if k < l.len() {
                assert(a[k] == b[i]);
                assert(a.to_set().contains(b[i]));
            } else {
                assert(b[k - l.len()] == b[i]);
            }
        }
        if a.to_set().contains(b[i]) {
            let k = a.index_of(b[i]);
            assert(h[k] == h[j]);
        }
        if exists|k: int| 0 <= k < i && #[trigger] b[k] == b[i] {
            let k = choose|k: int| 0 <= k < i && #[trigger] b[k] == b[i];
            assert(h[l.len() + k] == h[j]);
        }
        assert(report::repeats(known, h, j) == report::repeats(known + a.to_set(), b, i));
    }
    report::lemma_where_equal(l, p, q, l.len() as int);
    report::lemma_where_equal(m, shifted, r, m.len() as int);
    report::lemma_repeated_and_novel(known, h, l + m);
    report::lemma_repeated_and_novel(known, a, l);
    report::lemma_repeated_and_novel(known + a.to_set(), b, m);
    lemma_sum_concat(l, m, |i: int| true, m.len() as int);
    report::lemma_where_equal(m, |i: int| true, |i: int| true, m.len() as int);
    let t = |i: int| true;
    report::lemma_where_equal(m, |i: int| t(l.len() + i), t, m.len() as int);
}

/// Law: where every chunk is known, all of it repeats.
pub proof fn lemma_all_known(known: Set<u64>, hashes: Seq<u64>, lens: Seq<usize>)
    requires
        hashes.len() == lens.len(),
        forall|i: int| 0 <= i < hashes.len() ==> known.contains(#[trigger] hashes[i]),
    ensures
        report::repeated(known, hashes, lens) == report::total(lens),
        report::novel(known, hashes, lens) == 0,
{
    let n = lens.len() as int;
    lemma_repeats_in_numbers(known, hashes, lens);
    report::lemma_where_equal(
        lens,
        |i: int| report::repeats(known, hashes, i),
        |i: int| true,
        n,
    );
    report::lemma_repeated_and_novel(known, hashes, lens);
}

/// Law: where no chunk is known and no two are alike, nothing repeats.
pub proof fn lemma_all_novel(known: Set<u64>, hashes: Seq<u64>, lens: Seq<usize>)
    requires
        hashes.len() == lens.len(),
        hashes.no_duplicates(),
        forall|i: int| 0 <= i < hashes.len() ==> !known.contains(#[trigger] hashes[i]),
    ensures
        report::repeated(known, hashes, lens) == 0,
        report::novel(known, hashes, lens) == report::total(lens),
{
    let n = lens.len() as int;
    lemma_repeats_in_numbers(known, hashes, lens);
    report::lemma_where_equal(
        lens,
        |i: int| !report::repeats(known, hashes, i),
        |i: int| true,
        n,
    );
    report::lemma_repeated_and_novel(known, hashes, lens);
}

/// Law: of a file that holds the same chunks twice, one copy after the other,
/// the whole second copy repeats, and of the first copy what repeats in it.
pub proof fn lemma_second_copy(known: Set<u64>, a: Seq<u64>, l: Seq<usize>)
    requires
        a.len() == l.len(),
    ensures
        report::repeated(known, a + a, l + l) == report::repeated(known, a, l) + report::total(l),
        report::novel(known, a + a, l + l) == report::novel(known, a, l),
        a.no_duplicates() && (forall|i: int| 0 <= i < a.len() ==> !known.contains(#[trigger] a[i]))
            ==> report::repeated(known, a + a, l + l) == report::total(l),
{
    lemma_repeated_concat(known, a, l, a, l);
    assert forall|i: int| 0 <= i < a.len() implies (known + a.to_set()).contains(
        #[trigger] a[i],
    ) by {
        assert(a.to_set().contains(a[i]));
    }
    lemma_all_known(known + a.to_set(), a, l);
    if a.no_duplicates() && (forall|i: int| 0 <= i < a.len() ==> !known.contains(#[trigger] a[i])) {
        lemma_all_novel(known, a, l);
    }
}

/// Law: each hash is new once. The chunks that do not repeat are as many as the
/// hashes that were not known and are known with them.
pub proof fn lemma_new_once(known: Set<u64>, hashes: Seq<u64>)
    requires
        known.finite(),
    ensures
        report::count_where(|i: int| !report::repeats(known, hashes, i), hashes.len() as int)
            == (known + hashes.to_set()).len() - known.len(),
        (known + hashes.to_set()).finite(),
{
    lemma_new_once_among(known, hashes, hashes.len() as int);
    assert(hashes.take(hashes.len() as int) =~= hashes);
}

/// The same, among the first hashes.
proof fn lemma_new_once_among(known: Set<u64>, hashes: Seq<u64>, n: int)
    requires
        known.finite(),
        0 <= n <= hashes.len(),
    ensures
        report::count_where(|i: int| !report::repeats(known, hashes, i), n) == (known
            + hashes.take(n).to_set()).len() - known.len(),
        (known + hashes.take(n).to_set()).finite(),
    decreases n,
{
    if n == 0 {
        assert(hashes.take(0).to_set() =~= Set::<u64>::empty());
        assert(known + hashes.take(0).to_set() =~= known);
    } else {
        lemma_new_once_among(known, hashes, n - 1);
        let before = hashes.take(n - 1);
        let after = hashes.take(n);
        let h = hashes[n - 1];
        assert(after =~= before.push(h));
        assert forall|x: u64| #[trigger] (known + after.to_set()).contains(x) == (known
            + before.to_set()).insert(h).contains(x) by {
            assert(after[n - 1] == h);
            if before.contains(x) {
                assert(after[before.index_of(x)] == x);
            }
            if after.contains(x) && x != h {
                assert(before[after.index_of(x)] == x);
            }
        }
        assert(known + after.to_set() =~= (known + before.to_set()).insert(h));
        let lens = Seq::new(hashes.len(), |i: int| 0usize);
        lemma_repeats_in_numbers(known, hashes, lens);
        assert((known + before.to_set()).contains(h) == report::repeats(known, hashes, n - 1)) by {
            if before.contains(h) {
                assert(hashes[before.index_of(h)] == h);
            }
            if exists|k: int| 0 <= k < n - 1 && #[trigger] hashes[k] == h {
                let k = choose|k: int| 0 <= k < n - 1 && #[trigger] hashes[k] == h;
                assert(before[k] == h);
            }
        }
    }
}

/// Law: of chunks that all have the same length, the bytes that do not repeat
/// are that length for each hash that was not known; so a corpus of such chunks
/// stores that length for each unique chunk.
pub proof fn lemma_equal_lengths(known: Set<u64>, hashes: Seq<u64>, lens: Seq<usize>, l: usize)
    requires
        known.finite(),
        hashes.len() == lens.len(),
        forall|i: int| 0 <= i < lens.len() ==> #[trigger] lens[i] == l,
    ensures
        report::novel(known, hashes, lens) == l * ((known + hashes.to_set()).len() - known.len()),
{
    lemma_new_once(known, hashes);
    let p = |i: int| !report::repeats(known, hashes, i);
    lemma_constant_sum(lens, p, l, lens.len() as int);
}

/// Law: a corpus whose chunks all have the same length stores that length for
/// each unique chunk, and goes on to do so with every file of such chunks.
pub proof fn lemma_corpus_of_equal_lengths(
    before: Corpus,
    st: FileStats,
    after: Corpus,
    l: usize,
)
    requires
        before.wf(),
        before.stored() == l * before.known().len(),
        st.wf(),
        forall|i: int| 0 <= i < st.lens@.len() ==> #[trigger] st.lens@[i] == l,
        after.known() == before.known() + st.hashes@.to_set(),
        after.stored() == before.stored() + report::novel(before.known(), st.hashes@, st.lens@),
    ensures
        after.stored() == l * after.known().len(),
{
    lemma_equal_lengths(before.known(), st.hashes@, st.lens@, l);
    let x = before.known().len() as int;
    let y = after.known().len() as int;
    assert(l * x + l * (y - x) == l * y) by (nonlinear_arith);
}

/// Law: a file that a corpus has taken before adds nothing to what it stores.
pub proof fn lemma_absorbed_before(c: Corpus, st: FileStats)
    requires
        st.wf(),
        st.hashes@.to_set().subset_of(c.known()),
    ensures
        report::novel(c.known(), st.hashes@, st.lens@) == 0,
        c.known() + st.hashes@.to_set() == c.known(),
{
    assert forall|i: int| 0 <= i < st.hashes@.len() implies c.known().contains(
        #[trigger] st.hashes@[i],
    ) by {
        assert(st.hashes@.to_set().contains(st.hashes@[i]));
    }
    lemma_all_known(c.known(), st.hashes@, st.lens@);
    assert(c.known() + st.hashes@.to_set() =~= c.known());
}

proof fn lemma_constant_sum(lens: Seq<usize>, p: spec_fn(int) -> bool, l: usize, n: int)
    requires
        0 <= n <= lens.len(),
        forall|i: int| 0 <= i < lens.len() ==> #[trigger] lens[i] == l,
    ensures
        report::sum_where(lens, p, n) == l * report::count_where(p, n),
    decreases n,
{
    if n > 0 {
        lemma_constant_sum(lens, p, l, n - 1);
        let c = report::count_where(p, n - 1);
        assert(l * (c + 1) == l * c + l) by (nonlinear_arith);
    }
}

/// Law: what a comparison counts. A chunk is shared where its hash stands
/// anywhere in the old list, and fresh where it stands nowhere in it.
pub proof fn lemma_comparison_in_numbers(
    old_hashes: Seq<u64>,
    hashes: Seq<u64>,
    lens: Seq<usize>,
    r: Comparison,
)
    requires
        hashes.len() == lens.len(),
        report::is_comparison(old_hashes, hashes, lens, r),
    ensures
        ({
            let n = lens.len() as int;
            let old_one = |i: int|
                exists|k: int| 0 <= k < old_hashes.len() && #[trigger] old_hashes[k] == hashes[i];
            &&& r.shared == report::sum_where(lens, old_one, n)
            &&& r.fresh == report::sum_where(lens, |i: int| !old_one(i), n)
            &&& r.fresh_chunks == report::count_where(|i: int| !old_one(i), n)
            &&& r.total_chunks == n
        }),
        r.shared + r.fresh == report::total(lens),
{
    let n = lens.len() as int;
    let old_one = |i: int|
        exists|k: int| 0 <= k < old_hashes.len() && #[trigger] old_hashes[k] == hashes[i];
    assert forall|i: int| 0 <= i < n implies old_hashes.contains(hashes[i]) == #[trigger] old_one(
        i,
    ) by {
    }
    let c = |i: int| old_hashes.contains(hashes[i]);
    report::lemma_where_equal(lens, c, old_one, n);
    report::lemma_where_equal(
        lens,
        |i: int| !old_hashes.contains(hashes[i]),
        |i: int| !old_one(i),
        n,
    );
    report::lemma_where_split(lens, old_one, n);
}

/// Law: a comparison depends on which hashes the old version has, not on where
/// they stand or how often. In particular, a permutation of them changes
/// nothing.
pub proof fn lemma_compare_unordered(
    a: Seq<u64>,
    b: Seq<u64>,
    hashes: Seq<u64>,
    lens: Seq<usize>,
    r: Comparison,
    t: Comparison,
)
    requires
        hashes.len() == lens.len(),
        a.to_multiset() == b.to_multiset() || a.to_set() == b.to_set(),
        report::is_comparison(a, hashes, lens, r),
        report::is_comparison(b, hashes, lens, t),
    ensures
        r == t,
{
    let n = lens.len() as int;
    assert forall|h: u64| a.contains(h) == b.contains(h) by {
        if a.to_multiset() == b.to_multiset() {
            a.to_multiset_ensures();
            b.to_multiset_ensures();
            assert(a.contains(h) <==> a.to_multiset().count(h) > 0);
            assert(b.contains(h) <==> b.to_multiset().count(h) > 0);
        } else {
            assert(a.to_set().contains(h) == a.contains(h));
            assert(b.to_set().contains(h) == b.contains(h));
        }
    }
    report::lemma_where_equal(
        lens,
        |i: int| a.contains(hashes[i]),
        |i: int| b.contains(hashes[i]),
        n,
    );
    report::lemma_where_equal(
        lens,
        |i: int| !a.contains(hashes[i]),
        |i: int| !b.contains(hashes[i]),
        n,
    );
}

/// Law: where every chunk of the new version occurs in the old one, wherever,
/// nothing is fresh; where none does, nothing is shared.
pub proof fn lemma_compare_extremes(
    old_hashes: Seq<u64>,
    hashes: Seq<u64>,
    lens: Seq<usize>,
    r: Comparison,
)
    requires
        hashes.len() == lens.len(),
        report::is_comparison(old_hashes, hashes, lens, r),
    ensures
        (forall|i: int| 0 <= i < hashes.len() ==> old_hashes.contains(#[trigger] hashes[i]))
            ==> r.fresh == 0 && r.fresh_chunks == 0 && r.shared == report::total(lens),
        (forall|i: int| 0 <= i < hashes.len() ==> !old_hashes.contains(#[trigger] hashes[i]))
            ==> r.shared == 0 && r.fresh_chunks == lens.len() && r.fresh == report::total(lens),
{
    let n = lens.len() as int;
    let c = |i: int| old_hashes.contains(hashes[i]);
    let d = |i: int| !old_hashes.contains(hashes[i]);
    report::lemma_none(lens, n);
    lemma_count_all(n);
    if forall|i: int| 0 <= i < hashes.len() ==> old_hashes.contains(#[trigger] hashes[i]) {
        report::lemma_where_equal(lens, d, |i: int| false, n);
        report::lemma_where_equal(lens, c, |i: int| true, n);
    }
    if forall|i: int| 0 <= i < hashes.len() ==> !old_hashes.contains(#[trigger] hashes[i]) {
        report::lemma_where_equal(lens, c, |i: int| false, n);
        report::lemma_where_equal(lens, d, |i: int| true, n);
    }
}

proof fn lemma_count_all(n: int)
    requires
        0 <= n,
    ensures
        report::count_where(|i: int| true, n) == n,
    decreases n,
{
    if n > 0 {
        lemma_count_all(n - 1);
    }
}

/// Law: comparing two parts of a new version with the same old one, and adding
/// up, is comparing the whole.
pub proof fn lemma_compare_concat(
    old_hashes: Seq<u64>,
    a: Seq<u64>,
    l: Seq<usize>,
    b: Seq<u64>,
    m: Seq<usize>,
    r: Comparison,
    t: Comparison,
    whole: Comparison,
)
    requires
        a.len() == l.len(),
        b.len() == m.len(),
        report::is_comparison(old_hashes, a, l, r),
        report::is_comparison(old_hashes, b, m, t),
        report::is_comparison(old_hashes, a + b, l + m, whole),
    ensures
        whole.shared == r.shared + t.shared,
        whole.fresh == r.fresh + t.fresh,
        whole.fresh_chunks == r.fresh_chunks + t.fresh_chunks,
        whole.total_chunks == r.total_chunks + t.total_chunks,
{
    let h = a + b;
    let c = |i: int| old_hashes.contains(h[i]);
    let d = |i: int| !old_hashes.contains(h[i]);
    lemma_sum_concat(l, m, c, m.len() as int);
    lemma_sum_concat(l, m, d, m.len() as int);
    report::lemma_where_equal(l, c, |i: int| old_hashes.contains(a[i]), l.len() as int);
    report::lemma_where_equal(l, d, |i: int| !old_hashes.contains(a[i]), l.len() as int);
    report::lemma_where_equal(
        m,
        |i: int| c(l.len() + i),
        |i: int| old_hashes.contains(b[i]),
        m.len() as int,
    );
    report::lemma_where_equal(
        m,
        |i: int| d(l.len() + i),
        |i: int| !old_hashes.contains(b[i]),
        m.len() as int,
    );
}

/// Law: what a histogram shows. The first bucket ends at the minimum, each other
/// at twice the end before it or at the maximum, where the last one ends. The
/// first counts the lengths up to the minimum, each other those past the end
/// before it and up to its own, and the last all that are longer, too.
pub proof fn lemma_histogram_in_numbers(
    min: int,
    max: int,
    lens: Seq<usize>,
    ends: Seq<usize>,
    counts: Seq<usize>,
)
    requires
        0 < min || max <= min,
        0 <= min,
        report::is_bucket_count(min, max, ends.len() as int),
        forall|i: int|
            0 <= i < ends.len() ==> #[trigger] ends[i] == report::bucket_end(min, max, i),
        report::is_tally(min, max, ends.len() as int, lens, counts),
    ensures
        0 < ends.len(),
        ends[0] == min,
        max <= ends.last(),
        forall|i: int|
            0 <= i < ends.len() - 1 ==> #[trigger] ends[i] < max && ends[i + 1] == if 2 * ends[i]
                < max {
                2 * ends[i]
            } else {
                max
            },
        counts.len() == ends.len(),
        forall|i: int|
            0 <= i < counts.len() ==> #[trigger] counts[i] == report::count_where(
                |k: int|
                    {
                        &&& i == 0 || ends[i - 1] < lens[k]
                        &&& lens[k] <= ends[i] || i == ends.len() - 1
                    },
                lens.len() as int,
            ),
{
    let n = ends.len() as int;
    lemma2_to64();
    assert(min * pow2(0) == min);
    assert forall|i: int| 0 <= i < n - 1 implies #[trigger] ends[i] < max && ends[i + 1] == if 2
        * ends[i] < max {
        2 * ends[i]
    } else {
        max
    } by {
        report::lemma_doublings_grow(min, i as nat, (n - 2) as nat);
        report::lemma_doubling(min, i as nat);
        assert(ends[i + 1] == report::bucket_end(min, max, i + 1));
    }
    assert(ends[n - 1] == report::bucket_end(min, max, n - 1));
    assert forall|i: int| 0 <= i < n implies #[trigger] counts[i] == report::count_where(
        |k: int|
            {
                &&& i == 0 || ends[i - 1] < lens[k]
                &&& lens[k] <= ends[i] || i == ends.len() - 1
            },
        lens.len() as int,
    ) by {
        let p = |k: int| report::falls_in(min, max, n, lens[k] as int, i);
        let q = |k: int|
            {
                &&& i == 0 || ends[i - 1] < lens[k]
                &&& lens[k] <= ends[i] || i == ends.len() - 1
            };
        assert(counts[i] == report::count_where(p, lens.len() as int));
        assert forall|k: int| 0 <= k < lens.len() implies p(k) == #[trigger] q(k) by {
            if i > 0 {
                assert(ends[i - 1] == report::bucket_end(min, max, i - 1));
                report::lemma_doublings_grow(min, 0, (i - 1) as nat);
            }
        }
        report::lemma_where_equal(lens, p, q, lens.len() as int);
    }
}

/// Law: a histogram can be made where the minimum is positive or no less than
/// the maximum, and no doubling of it that is below the maximum is beyond half
/// of the range; so for every maximum up to half of the range.
pub proof fn lemma_histogram_possible(min: int, max: int)
    ensures
        report::doublings_fit(min, max) <==> (0 < min || max <= min) && forall|k: nat|
            min * #[trigger] pow2(k) < max ==> 2 * (min * pow2(k)) <= usize::MAX,
        0 < min && max <= usize::MAX / 2 + 1 ==> report::doublings_fit(min, max),
{
}

} // verus!
