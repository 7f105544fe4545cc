//! Laws of the chunks of an input: that they partition it, how long they are,
//! and that they depend on content, not on position.
use vstd::arithmetic::power2::*;
use vstd::prelude::*;

use crate::rolling;
use crate::sizing;
use crate::sizing::Sizes;
use crate::streaming;

verus! {

/// From chunk `i` on, the list is the chunks from where chunk `i` begins.
pub proof fn lemma_cuts_skip(s: Sizes, data: Seq<u8>, from: int, i: int)
    requires
        s.ordered(),
        0 <= from <= data.len(),
        0 <= i < sizing::cuts_from(s, data, from).len(),
    ensures
        ({
            let list = sizing::cuts_from(s, data, from);
            &&& from <= list[i].offset < data.len()
            &&& list.skip(i) == sizing::cuts_from(s, data, list[i].offset)
            &&& list[i].length == s.next_cut(data.skip(list[i].offset))
            &&& list[i].hash == s.cut_hash(data.skip(list[i].offset))
        }),
    decreases i,
{
    let list = sizing::cuts_from(s, data, from);
    if from < data.len() {
        let c = s.next_cut(data.skip(from));
        sizing::lemma_next_cut(s, data.skip(from));
        let rest = sizing::cuts_from(s, data, from + c);
        if i == 0 {
            assert(list.skip(0) =~= list);
        } else {
            assert(rest[i - 1] == list[i]);
            lemma_cuts_skip(s, data, from + c, i - 1);
            assert(list.skip(i) =~= rest.skip(i - 1));
        }
    }
}

/// Law: the chunks of an input lie end to end. The first begins at the start,
/// each begins where the one before it ends, and the last ends at the end.
pub proof fn lemma_contiguous(s: Sizes, data: Seq<u8>)
    requires
        s.ordered(),
    ensures
        data.len() == 0 <==> sizing::cuts(s, data).len() == 0,
        data.len() > 0 ==> sizing::cuts(s, data)[0].offset == 0,
        forall|i: int|
            0 <= i < sizing::cuts(s, data).len() - 1 ==> #[trigger] sizing::cuts(s, data)[i].offset
                + sizing::cuts(s, data)[i].length == sizing::cuts(s, data)[i + 1].offset,
        data.len() > 0 ==> sizing::cuts(s, data).last().offset + sizing::cuts(s, data).last().length
            == data.len(),
{
    let list = sizing::cuts(s, data);
    assert forall|i: int| 0 <= i < list.len() implies {
        let end = (#[trigger] list[i]).offset + list[i].length;
        if i < list.len() - 1 {
            end == list[i + 1].offset
        } else {
            end == data.len()
        }
    } by {
        lemma_cuts_skip(s, data, 0, i);
        let at = list[i].offset;
        let rest = sizing::cuts_from(s, data, at);
        let end = at + list[i].length;
        sizing::lemma_next_cut(s, data.skip(at));
        let after = sizing::cuts_from(s, data, end);
        assert(rest =~= seq![rest[0]] + after);
        if i < list.len() - 1 {
            assert(list.skip(i)[1] == list[i + 1]);
            assert(after[0] == list[i + 1]);
        } else {
            assert(list.skip(i).len() == 1);
        }
    }
}

/// Law: the chunks of an input, put together, are the input.
pub proof fn lemma_partition(s: Sizes, data: Seq<u8>)
    requires
        s.ordered(),
    ensures
        sizing::chunk_bytes(data, sizing::cuts(s, data)).flatten() == data,
    decreases data.len(),
{
    if data.len() == 0 {
        assert(sizing::chunk_bytes(data, sizing::cuts(s, data)) =~= Seq::empty());
        assert(data =~= Seq::empty());
    } else {
        let c = s.next_cut(data);
        sizing::lemma_next_cut(s, data);
        sizing::lemma_chunks_unfold(s, data);
        let rest = sizing::chunk_bytes(data.skip(c), sizing::cuts(s, data.skip(c)));
        lemma_partition(s, data.skip(c));
        let all = sizing::chunk_bytes(data, sizing::cuts(s, data));
        assert(all.drop_first() =~= rest);
        assert(data =~= data.take(c) + data.skip(c));
    }
}

/// Law: no chunk is empty and none is longer than `max`; every chunk but the
/// last is longer than `min`, and where it is shorter than `max` its content
/// asked for the cut.
pub proof fn lemma_chunk_sizes(s: Sizes, data: Seq<u8>, i: int)
    requires
        s.ordered(),
        0 <= i < sizing::cuts(s, data).len(),
    ensures
        ({
            let c = sizing::cuts(s, data)[i];
            &&& 0 < c.length <= s.max
            &&& i < sizing::cuts(s, data).len() - 1 ==> {
                &&& s.min < c.length
                &&& c.length < s.max ==> s.is_boundary(data.skip(c.offset), c.length)
            }
        }),
{
    let list = sizing::cuts(s, data);
    lemma_cuts_skip(s, data, 0, i);
    let rest = data.skip(list[i].offset);
    sizing::lemma_next_cut(s, rest);
    if i < list.len() - 1 {
        lemma_contiguous(s, data);
        lemma_cuts_skip(s, data, 0, i + 1);
        assert(list[i].offset + list[i].length == list[i + 1].offset);
    }
}

/// Law: chunking resyncs. Two inputs that end in the same bytes `t` and both
/// have a cut right before them are cut alike from there on.
pub proof fn lemma_resync(s: Sizes, p: Seq<u8>, q: Seq<u8>, t: Seq<u8>, i: int, j: int)
    requires
        s.ordered(),
        0 <= i < sizing::cuts(s, p + t).len(),
        0 <= j < sizing::cuts(s, q + t).len(),
        sizing::end_offsets(sizing::cuts(s, p + t))[i] == p.len(),
        sizing::end_offsets(sizing::cuts(s, q + t))[j] == q.len(),
    ensures
        sizing::cuts(s, q + t).skip(j + 1) == sizing::shifted(
            sizing::cuts(s, p + t).skip(i + 1),
            q.len() - p.len(),
        ),
        sizing::cuts(s, p + t).skip(i + 1) == sizing::shifted(sizing::cuts(s, t), p.len() as int),
{
    lemma_after_cut(s, p, t, i);
    lemma_after_cut(s, q, t, j);
    assert(sizing::cuts(s, q + t).skip(j + 1) =~= sizing::shifted(
        sizing::cuts(s, p + t).skip(i + 1),
        q.len() - p.len(),
    ));
}

/// After a cut at `p.len()`, the chunks are those of what follows.
proof fn lemma_after_cut(s: Sizes, p: Seq<u8>, t: Seq<u8>, i: int)
    requires
        s.ordered(),
        0 <= i < sizing::cuts(s, p + t).len(),
        sizing::end_offsets(sizing::cuts(s, p + t))[i] == p.len(),
    ensures
        sizing::cuts(s, p + t).skip(i + 1) == sizing::shifted(sizing::cuts(s, t), p.len() as int),
{
    let list = sizing::cuts(s, p + t);
    lemma_contiguous(s, p + t);
    assert(list[i].offset + list[i].length == p.len());
    assert((p + t).skip(p.len() as int) =~= t);
    sizing::lemma_cuts_shift(s, p + t, p.len() as int, 0);
    if i < list.len() - 1 {
        lemma_cuts_skip(s, p + t, 0, i + 1);
    } else {
        assert(t.len() == 0);
        assert(list.skip(i + 1) =~= sizing::shifted(sizing::cuts(s, t), p.len() as int));
    }
}

/// Law: a boundary is a matter of content. From 16 hashed bytes on, whether a
/// length is a boundary depends on the 16 bytes before it and on the mask
/// there, wherever in a chunk and in whatever input they stand.
pub proof fn lemma_boundary_is_local(s: Sizes, x: Seq<u8>, k: int, y: Seq<u8>, l: int)
    requires
        s.ordered(),
        s.min + 16 <= k <= x.len(),
        s.min + 16 <= l <= y.len(),
        x.subrange(k - 16, k) == y.subrange(l - 16, l),
        s.mask_at(k) == s.mask_at(l),
    ensures
        s.state_at(x, k) == s.state_at(y, l),
        s.is_boundary(x, k) == s.is_boundary(y, l),
{
    let a = x.subrange(s.min, k);
    let b = y.subrange(s.min, l);
    rolling::lemma_state_window(0, a, 0);
    rolling::lemma_state_window(0, b, 0);
    assert(a.skip(a.len() - 16) =~= x.subrange(k - 16, k));
    assert(b.skip(b.len() - 16) =~= y.subrange(l - 16, l));
}

/// Law: constant data is cut periodically. All its chunks but the last have
/// the same length, and the last is no longer.
pub proof fn lemma_constant_is_periodic(s: Sizes, data: Seq<u8>, b: u8, i: int)
    requires
        s.ordered(),
        forall|k: int| 0 <= k < data.len() ==> data[k] == b,
        0 <= i < sizing::cuts(s, data).len(),
    ensures
        i < sizing::cuts(s, data).len() - 1 ==> sizing::cuts(s, data)[i].length == sizing::cuts(
            s,
            data,
        )[0].length,
        sizing::cuts(s, data)[i].length <= sizing::cuts(s, data)[0].length,
{
    let list = sizing::cuts(s, data);
    lemma_contiguous(s, data);
    lemma_cuts_skip(s, data, 0, 0);
    lemma_cuts_skip(s, data, 0, i);
    assert(data.skip(0) =~= data);
    let x = data.skip(list[i].offset);
    sizing::lemma_next_cut(s, x);
    if i < list.len() - 1 {
        let c = list[i].length;
        lemma_cuts_skip(s, data, 0, i + 1);
        assert(list[i].offset + list[i].length == list[i + 1].offset);
        assert(x.take(c) =~= data.take(c));
        streaming::lemma_common_prefix(s, x, data, c);
    } else if i > 0 {
        let c = list[0].length;
        lemma_cuts_skip(s, data, 0, 1);
        assert(list[0].offset + list[0].length == list[1].offset);
        if x.len() >= c {
            assert(x.take(c) =~= data.take(c));
            streaming::lemma_common_prefix(s, data, x, c);
        }
    }
}

/// Law: an edit leaves the cuts before it in place. Two inputs that begin with
/// the same bytes `p` have in common every chunk of the first that ends in `p`,
/// unless it is the end of the input that ends it.
pub proof fn lemma_edit_keeps_cuts(s: Sizes, p: Seq<u8>, t: Seq<u8>, u: Seq<u8>, i: int)
    requires
        s.ordered(),
        0 <= i < sizing::cuts(s, p + t).len(),
        sizing::end_offsets(sizing::cuts(s, p + t))[i] <= p.len(),
        sizing::end_offsets(sizing::cuts(s, p + t))[i] < (p + t).len(),
    ensures
        i < sizing::cuts(s, p + u).len(),
        sizing::cuts(s, p + u).take(i + 1) == sizing::cuts(s, p + t).take(i + 1),
{
    let list = sizing::cuts(s, p + t);
    assert(sizing::end_offsets(list)[i] == list[i].offset + list[i].length);
    lemma_edit_keeps_cuts_from(s, p, t, u, 0, i);
}

/// The same, from a cut on.
proof fn lemma_edit_keeps_cuts_from(
    s: Sizes,
    p: Seq<u8>,
    t: Seq<u8>,
    u: Seq<u8>,
    from: int,
    i: int,
)
    requires
        s.ordered(),
        0 <= from <= p.len(),
        0 <= i < sizing::cuts_from(s, p + t, from).len(),
        ({
            let c = sizing::cuts_from(s, p + t, from)[i];
            c.offset + c.length <= p.len() && c.offset + c.length < (p + t).len()
        }),
    ensures
        i < sizing::cuts_from(s, p + u, from).len(),
        sizing::cuts_from(s, p + u, from).take(i + 1) == sizing::cuts_from(s, p + t, from).take(
            i + 1,
        ),
    decreases i,
{
    let x = (p + t).skip(from);
    let y = (p + u).skip(from);
    let c = s.next_cut(x);
    let list = sizing::cuts_from(s, p + t, from);
    let rest = sizing::cuts_from(s, p + t, from + c);
    sizing::lemma_next_cut(s, x);
    sizing::lemma_cuts_in_bounds(s, p + t, from + c);
    if i > 0 {
        assert(list[i] == rest[i - 1]);
    }
    assert(from + c <= p.len() && from + c < (p + t).len());
    assert(x.take(c) =~= y.take(c));
    streaming::lemma_common_prefix(s, x, y, c);
    let other = sizing::cuts_from(s, p + u, from);
    let other_rest = sizing::cuts_from(s, p + u, from + c);
    assert(other =~= seq![list[0]] + other_rest);
    if i > 0 {
        lemma_edit_keeps_cuts_from(s, p, t, u, from + c, i - 1);
        assert forall|k: int| 0 <= k <= i implies #[trigger] other[k] == list[k] by {
            if k > 0 {
                assert(other_rest.take(i)[k - 1] == rest.take(i)[k - 1]);
            }
        }
    }
    assert(other.take(i + 1) =~= list.take(i + 1));
}

/// Law: the first `min` bytes of a chunk are not hashed. Inputs that differ
/// there alone have the same next cut with the same state.
pub proof fn lemma_skipped_bytes(s: Sizes, x: Seq<u8>, y: Seq<u8>)
    requires
        s.ordered(),
        x.len() == y.len(),
        forall|k: int| s.min <= k < x.len() ==> x[k] == y[k],
    ensures
        s.next_cut(x) == s.next_cut(y),
        s.cut_hash(x) == s.cut_hash(y),
{
    sizing::lemma_next_cut(s, x);
    sizing::lemma_next_cut(s, y);
    if x.len() > s.min {
        sizing::lemma_cut_carries(s, x, y);
    }
}

/// The 16 bytes before `k` meet the hard mask, and with it every mask.
pub open spec fn strong_boundary(s: Sizes, data: Seq<u8>, k: int) -> bool {
    &&& 16 <= k <= data.len()
    &&& rolling::state_after(0, data.subrange(k - 16, k)) & s.hard_mask() == 0
}

/// Law: no chunk runs past a strong boundary. A chunk that has begun `min + 16`
/// bytes or more before one, and reaches it, ends there.
pub proof fn lemma_strong_boundary(s: Sizes, data: Seq<u8>, i: int, k: int)
    requires
        s.valid(),
        strong_boundary(s, data, k),
        0 <= i < sizing::cuts(s, data).len(),
        sizing::cuts(s, data)[i].offset + s.min + 16 <= k,
        k <= sizing::cuts(s, data)[i].offset + sizing::cuts(s, data)[i].length,
    ensures
        sizing::cuts(s, data)[i].offset + sizing::cuts(s, data)[i].length == k,
{
    sizing::lemma_ordered(s);
    let c = sizing::cuts(s, data)[i];
    lemma_cuts_skip(s, data, 0, i);
    let rest = data.skip(c.offset);
    let l = k - c.offset;
    sizing::lemma_next_cut(s, rest);
    let hashed = rest.subrange(s.min, l);
    rolling::lemma_state_window(0, hashed, 0);
    assert(hashed.skip(hashed.len() - 16) =~= data.subrange(k - 16, k));
    let a = choose|a: nat| s.avg == #[trigger] pow2(a);
    sizing::lemma_masks(s, a, s.state_at(rest, l));
    assert(s.is_boundary(rest, l));
}

/// Law: a strong boundary in a common tail resyncs. Two inputs that end in the
/// same bytes `u + v`, with a strong boundary after `u` that a chunk of each
/// reaches as [`lemma_strong_boundary`] says, are cut alike in `v`.
pub proof fn lemma_resync_at_boundary(
    s: Sizes,
    p: Seq<u8>,
    q: Seq<u8>,
    u: Seq<u8>,
    v: Seq<u8>,
    i: int,
    j: int,
)
    requires
        s.valid(),
        strong_boundary(s, u, u.len() as int),
        0 <= i < sizing::cuts(s, p + u + v).len(),
        0 <= j < sizing::cuts(s, q + u + v).len(),
        ({
            let c = sizing::cuts(s, p + u + v)[i];
            c.offset + s.min + 16 <= p.len() + u.len() <= c.offset + c.length
        }),
        ({
            let d = sizing::cuts(s, q + u + v)[j];
            d.offset + s.min + 16 <= q.len() + u.len() <= d.offset + d.length
        }),
    ensures
        sizing::cuts(s, p + u + v).skip(i + 1) == sizing::shifted(
            sizing::cuts(s, v),
            (p.len() + u.len()) as int,
        ),
        sizing::cuts(s, q + u + v).skip(j + 1) == sizing::shifted(
            sizing::cuts(s, v),
            (q.len() + u.len()) as int,
        ),
{
    sizing::lemma_ordered(s);
    let m = (p.len() + u.len()) as int;
    let n = (q.len() + u.len()) as int;
    let w = u.subrange(u.len() - 16, u.len() as int);
    assert((p + u + v).subrange(m - 16, m) =~= w);
    assert((q + u + v).subrange(n - 16, n) =~= w);
    lemma_strong_boundary(s, p + u + v, i, m);
    lemma_strong_boundary(s, q + u + v, j, n);
    lemma_after_cut(s, p + u, v, i);
    lemma_after_cut(s, q + u, v, j);
}

/// Law: how far resync takes. After `ins` is inserted behind `a`, resync takes
/// no longer than to a strong boundary in what follows that a chunk of each
/// version reaches as [`lemma_strong_boundary`] says: with `u` before it, both
/// have a cut `u.len()` bytes behind the insert, and from there on the edited
/// version has exactly the cuts of the old one, moved by the insert.
pub proof fn lemma_resync_distance(
    s: Sizes,
    a: Seq<u8>,
    ins: Seq<u8>,
    u: Seq<u8>,
    v: Seq<u8>,
    i: int,
    j: int,
)
    requires
        s.valid(),
        strong_boundary(s, u, u.len() as int),
        0 <= i < sizing::cuts(s, a + u + v).len(),
        0 <= j < sizing::cuts(s, a + ins + u + v).len(),
        ({
            let c = sizing::cuts(s, a + u + v)[i];
            c.offset + s.min + 16 <= a.len() + u.len() <= c.offset + c.length
        }),
        ({
            let d = sizing::cuts(s, a + ins + u + v)[j];
            d.offset + s.min + 16 <= a.len() + ins.len() + u.len() <= d.offset + d.length
        }),
    ensures
        ({
            let before = sizing::cuts(s, a + u + v);
            let after = sizing::cuts(s, a + ins + u + v);
            &&& sizing::end_offsets(before)[i] == a.len() + u.len()
            &&& sizing::end_offsets(after)[j] == a.len() + ins.len() + u.len()
            &&& after.skip(j + 1) == sizing::shifted(before.skip(i + 1), ins.len() as int)
        }),
{
    let before = sizing::cuts(s, a + u + v);
    let after = sizing::cuts(s, a + ins + u + v);
    let w = u.subrange(u.len() - 16, u.len() as int);
    let m = (a.len() + u.len()) as int;
    let n = (a.len() + ins.len() + u.len()) as int;
    assert((a + u + v).subrange(m - 16, m) =~= w);
    assert((a + ins + u + v).subrange(n - 16, n) =~= w);
    lemma_strong_boundary(s, a + u + v, i, m);
    lemma_strong_boundary(s, a + ins + u + v, j, n);
    lemma_resync_at_boundary(s, a, a + ins, u, v, i, j);
    assert(after.skip(j + 1) =~= sizing::shifted(before.skip(i + 1), ins.len() as int));
}

} // verus!
