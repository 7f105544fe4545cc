//! Streaming, as mathematics: which chunks are settled before the end of the
//! input is known, and why the way the input arrives in pieces does not matter.
use vstd::prelude::*;

use crate::sizing;
use crate::sizing::{Cut, Sizes};

verus! {

/// The chunks from `from` on that are settled by `data`: those with `max` bytes
/// to look at from their start.
pub open spec fn settled_from(s: Sizes, data: Seq<u8>, from: int) -> Seq<Cut>
    decreases data.len() - from,
    when s.ordered() && 0 <= from
{
    if data.len() - from < s.max {
        Seq::empty()
    } else {
        proof {
            sizing::lemma_next_cut(s, data.skip(from));
        }
        let c = s.next_cut(data.skip(from));
        seq![Cut { offset: from, length: c, hash: s.cut_hash(data.skip(from)) }] + settled_from(
            s,
            data,
            from + c,
        )
    }
}

/// Where the chunks that `data` settles end.
pub open spec fn settled_end(s: Sizes, data: Seq<u8>, from: int) -> int
    decreases data.len() - from,
    when s.ordered() && 0 <= from
{
    if data.len() - from < s.max {
        from
    } else {
        proof {
            sizing::lemma_next_cut(s, data.skip(from));
        }
        settled_end(s, data, from + s.next_cut(data.skip(from)))
    }
}

/// The chunks that `data` settles.
pub open spec fn settled(s: Sizes, data: Seq<u8>) -> Seq<Cut> {
    settled_from(s, data, 0)
}

/// The bytes of the chunks that `data` settles.
pub open spec fn settled_bytes(s: Sizes, data: Seq<u8>) -> Seq<Seq<u8>> {
    sizing::chunk_bytes(data, settled(s, data))
}

/// What `data` leaves unsettled.
pub open spec fn unsettled(s: Sizes, data: Seq<u8>) -> Seq<u8> {
    data.skip(settled_end(s, data, 0))
}

/// What feeding `pieces` one after the other emits, and what it leaves pending,
/// when `pending` was pending before.
pub open spec fn feed(s: Sizes, pending: Seq<u8>, pieces: Seq<Seq<u8>>) -> (
    Seq<Seq<u8>>,
    Seq<u8>,
)
    decreases pieces.len(),
{
    if pieces.len() == 0 {
        (Seq::empty(), pending)
    } else {
        let (emitted, left) = feed(s, pending, pieces.drop_last());
        let seen = left + pieces.last();
        (emitted + settled_bytes(s, seen), unsettled(s, seen))
    }
}

/// The listed chunks of `data` with their bytes, where `data` begins `by` bytes
/// into a stream.
pub open spec fn items(data: Seq<u8>, list: Seq<Cut>, by: int) -> Seq<(Cut, Seq<u8>)> {
    list.map_values(
        |c: Cut|
            (
                Cut { offset: c.offset + by, length: c.length, hash: c.hash },
                data.subrange(c.offset, c.offset + c.length),
            ),
    )
}

/// The bytes of listed items.
pub open spec fn item_bytes(list: Seq<(Cut, Seq<u8>)>) -> Seq<Seq<u8>> {
    list.map_values(|item: (Cut, Seq<u8>)| item.1)
}

/// What feeding `pieces` one after the other to a new feeder emits, what it
/// leaves pending, and how many bytes have been emitted.
pub open spec fn feed_items(s: Sizes, pieces: Seq<Seq<u8>>) -> (
    Seq<(Cut, Seq<u8>)>,
    Seq<u8>,
    int,
)
    decreases pieces.len(),
{
    if pieces.len() == 0 {
        (Seq::empty(), Seq::empty(), 0)
    } else {
        let (emitted, left, by) = feed_items(s, pieces.drop_last());
        let seen = left + pieces.last();
        (
            emitted + items(seen, settled(s, seen), by),
            unsettled(s, seen),
            by + settled_end(s, seen, 0),
        )
    }
}

/// Law: a cut decision needs at most `max` bytes of lookahead. More input does
/// not move a cut that had `max` bytes to look at, nor one that fell before
/// the end of the input.
pub proof fn lemma_lookahead(s: Sizes, x: Seq<u8>, y: Seq<u8>)
    requires
        s.ordered(),
        x.len() >= s.max || s.next_cut(x) < x.len(),
    ensures
        s.next_cut(x + y) == s.next_cut(x),
        s.cut_hash(x + y) == s.cut_hash(x),
{
    sizing::lemma_next_cut(s, x);
    sizing::lemma_cut_carries(s, x, x + y);
}

/// Law: a cut before the end of an input depends on the bytes up to it alone.
/// Where two inputs agree up to the cut of the first, the second is cut alike.
pub proof fn lemma_common_prefix(s: Sizes, u: Seq<u8>, v: Seq<u8>, m: int)
    requires
        s.ordered(),
        0 <= m <= u.len(),
        m <= v.len(),
        u.take(m) == v.take(m),
        s.next_cut(u) <= m,
        s.next_cut(u) < u.len(),
    ensures
        s.next_cut(v) == s.next_cut(u),
        s.cut_hash(v) == s.cut_hash(u),
{
    sizing::lemma_next_cut(s, u);
    assert forall|k: int| s.min <= k < s.next_cut(u) implies u[k] == v[k] by {
        assert(u[k] == u.take(m)[k]);
        assert(v[k] == v.take(m)[k]);
    }
    sizing::lemma_cut_carries(s, u, v);
}

/// What is left unsettled is shorter than `max`.
pub proof fn lemma_settled_end(s: Sizes, data: Seq<u8>, from: int)
    requires
        s.ordered(),
        0 <= from <= data.len(),
    ensures
        from <= settled_end(s, data, from) <= data.len(),
        data.len() - settled_end(s, data, from) < s.max,
    decreases data.len() - from,
{
    if data.len() - from >= s.max {
        sizing::lemma_next_cut(s, data.skip(from));
        lemma_settled_end(s, data, from + s.next_cut(data.skip(from)));
    }
}

/// Law: settled chunks stay, whatever follows. They are the first chunks of the
/// longer input, and the others begin where they end.
pub proof fn lemma_settled_prefix(s: Sizes, x: Seq<u8>, y: Seq<u8>, from: int)
    requires
        s.ordered(),
        0 <= from <= x.len(),
    ensures
        sizing::cuts_from(s, x + y, from) == settled_from(s, x, from) + sizing::cuts_from(
            s,
            x + y,
            settled_end(s, x, from),
        ),
    decreases x.len() - from,
{
    if x.len() - from >= s.max {
        let c = s.next_cut(x.skip(from));
        sizing::lemma_next_cut(s, x.skip(from));
        assert((x + y).skip(from) =~= x.skip(from) + y);
        lemma_lookahead(s, x.skip(from), y);
        lemma_settled_prefix(s, x, y, from + c);
        assert(sizing::cuts_from(s, x + y, from) =~= settled_from(s, x, from)
            + sizing::cuts_from(s, x + y, settled_end(s, x, from)));
    } else {
        assert(sizing::cuts_from(s, x + y, from) =~= settled_from(s, x, from)
            + sizing::cuts_from(s, x + y, from));
    }
}

/// The settled chunks lie inside the input, before the unsettled rest.
pub proof fn lemma_settled_in_bounds(s: Sizes, data: Seq<u8>, from: int)
    requires
        s.ordered(),
        0 <= from <= data.len(),
    ensures
        forall|i: int|
            0 <= i < settled_from(s, data, from).len() ==> {
                let c = #[trigger] settled_from(s, data, from)[i];
                &&& from <= c.offset
                &&& 0 < c.length
                &&& c.offset + c.length <= data.len()
            },
    decreases data.len() - from,
{
    if data.len() - from >= s.max {
        let c = s.next_cut(data.skip(from));
        sizing::lemma_next_cut(s, data.skip(from));
        lemma_settled_in_bounds(s, data, from + c);
        let rest = settled_from(s, data, from + c);
        assert forall|i: int| 0 <= i < settled_from(s, data, from).len() implies ({
            let d = #[trigger] settled_from(s, data, from)[i];
            &&& from <= d.offset
            &&& 0 < d.length
            &&& d.offset + d.length <= data.len()
        }) by {
            if i > 0 {
                assert(settled_from(s, data, from)[i] == rest[i - 1]);
            }
        }
    }
}

/// The listed chunks lie within `n` bytes.
spec fn in_bounds(list: Seq<Cut>, n: int) -> bool {
    forall|i: int|
        0 <= i < list.len() ==> {
            let c = #[trigger] list[i];
            &&& 0 <= c.offset
            &&& 0 <= c.length
            &&& c.offset + c.length <= n
        }
}

/// The bytes of the items are those of the chunks.
proof fn lemma_item_bytes(data: Seq<u8>, list: Seq<Cut>, by: int)
    ensures
        item_bytes(items(data, list, by)) == sizing::chunk_bytes(data, list),
{
    assert(item_bytes(items(data, list, by)) =~= sizing::chunk_bytes(data, list));
}

/// The items of chunks of `z` of which the `first` lie in its prefix `x`, and
/// the others begin `e` bytes in, are the items of the two parts.
proof fn lemma_items_split(x: Seq<u8>, z: Seq<u8>, first: Seq<Cut>, rest: Seq<Cut>, e: int, by: int)
    requires
        x.len() <= z.len(),
        z.take(x.len() as int) == x,
        0 <= e <= z.len(),
        in_bounds(first, x.len() as int),
        in_bounds(rest, z.len() - e),
    ensures
        items(z, first + sizing::shifted(rest, e), by) == items(x, first, by) + items(
            z.skip(e),
            rest,
            by + e,
        ),
        sizing::chunk_bytes(z, first + sizing::shifted(rest, e)) == sizing::chunk_bytes(x, first)
            + sizing::chunk_bytes(z.skip(e), rest),
{
    let all = first + sizing::shifted(rest, e);
    let split = items(x, first, by) + items(z.skip(e), rest, by + e);
    assert forall|i: int| 0 <= i < all.len() implies #[trigger] items(z, all, by)[i] == split[i] by {
        if i < first.len() {
            let c = first[i];
            assert(z.subrange(c.offset, c.offset + c.length) =~= x.subrange(
                c.offset,
                c.offset + c.length,
            ));
        } else {
            let c = rest[i - first.len()];
            assert(z.subrange(c.offset + e, c.offset + e + c.length) =~= z.skip(e).subrange(
                c.offset,
                c.offset + c.length,
            ));
        }
    }
    assert(items(z, all, by) =~= split);
    lemma_item_bytes(z, all, by);
    lemma_item_bytes(x, first, by);
    lemma_item_bytes(z.skip(e), rest, by + e);
    assert(item_bytes(split) =~= item_bytes(items(x, first, by)) + item_bytes(
        items(z.skip(e), rest, by + e),
    ));
}

/// The items of an input are the first one and the items of the rest.
pub proof fn lemma_items_unfold(s: Sizes, data: Seq<u8>, by: int)
    requires
        s.ordered(),
        data.len() > 0,
    ensures
        ({
            let c = s.next_cut(data);
            items(data, sizing::cuts(s, data), by) == seq![
                (Cut { offset: by, length: c, hash: s.cut_hash(data) }, data.take(c)),
            ] + items(data.skip(c), sizing::cuts(s, data.skip(c)), by + c)
        }),
{
    let c = s.next_cut(data);
    sizing::lemma_next_cut(s, data);
    sizing::lemma_cuts_shift(s, data, c, 0);
    sizing::lemma_cuts_in_bounds(s, data.skip(c), 0);
    assert(data.skip(0) =~= data);
    assert(data.take(data.len() as int) =~= data);
    assert(data.subrange(0, c) =~= data.take(c));
    let first = seq![Cut { offset: 0, length: c, hash: s.cut_hash(data) }];
    lemma_items_split(data, data, first, sizing::cuts(s, data.skip(c)), c, by);
    assert(items(data, first, by) =~= seq![
        (Cut { offset: by, length: c, hash: s.cut_hash(data) }, data.take(c)),
    ]);
}

/// What an input settles is its first chunk, where that is settled, and what
/// the rest settles.
pub proof fn lemma_settled_unfold(s: Sizes, data: Seq<u8>, by: int)
    requires
        s.ordered(),
        data.len() >= s.max,
    ensures
        ({
            let c = s.next_cut(data);
            let rest = data.skip(c);
            &&& items(data, settled(s, data), by) == seq![
                (Cut { offset: by, length: c, hash: s.cut_hash(data) }, data.take(c)),
            ] + items(rest, settled(s, rest), by + c)
            &&& settled_bytes(s, data) == seq![data.take(c)] + settled_bytes(s, rest)
            &&& settled_end(s, data, 0) == c + settled_end(s, rest, 0)
            &&& unsettled(s, data) == unsettled(s, rest)
        }),
{
    let c = s.next_cut(data);
    let rest = data.skip(c);
    sizing::lemma_next_cut(s, data);
    lemma_settled_shift(s, data, c, 0);
    lemma_settled_in_bounds(s, rest, 0);
    lemma_settled_end(s, rest, 0);
    assert(data.skip(0) =~= data);
    assert(data.take(data.len() as int) =~= data);
    assert(data.subrange(0, c) =~= data.take(c));
    let first = seq![Cut { offset: 0, length: c, hash: s.cut_hash(data) }];
    lemma_items_split(data, data, first, settled(s, rest), c, by);
    assert(items(data, first, by) =~= seq![
        (Cut { offset: by, length: c, hash: s.cut_hash(data) }, data.take(c)),
    ]);
    assert(sizing::chunk_bytes(data, first) =~= seq![data.take(c)]);
    assert(unsettled(s, data) =~= unsettled(s, rest));
}

/// Law: one push changes nothing about the chunks. What `x` settles, followed
/// by the chunks of what it leaves with `y` behind it, are the chunks of both;
/// this holds of the bytes and of the items that a feeder reports.
pub proof fn lemma_push(s: Sizes, x: Seq<u8>, y: Seq<u8>, by: int)
    requires
        s.ordered(),
    ensures
        ({
            let left = unsettled(s, x) + y;
            &&& sizing::chunk_bytes(x + y, sizing::cuts(s, x + y)) == settled_bytes(s, x)
                + sizing::chunk_bytes(left, sizing::cuts(s, left))
            &&& items(x + y, sizing::cuts(s, x + y), by) == items(x, settled(s, x), by) + items(
                left,
                sizing::cuts(s, left),
                by + settled_end(s, x, 0),
            )
        }),
{
    let z = x + y;
    let e = settled_end(s, x, 0);
    let left = unsettled(s, x) + y;
    lemma_settled_end(s, x, 0);
    lemma_settled_prefix(s, x, y, 0);
    lemma_settled_in_bounds(s, x, 0);
    assert(z.skip(e) =~= left);
    assert(z.take(x.len() as int) =~= x);
    sizing::lemma_cuts_shift(s, z, e, 0);
    sizing::lemma_cuts_in_bounds(s, left, 0);
    lemma_items_split(x, z, settled(s, x), sizing::cuts(s, left), e, by);
}

/// Law: streaming produces the chunks of slice chunking, however the input is
/// split into pushes. What the pushes emit, followed by the chunks of what
/// they leave pending, are the chunks of the whole input.
pub proof fn lemma_stream_matches_slice(s: Sizes, pieces: Seq<Seq<u8>>)
    requires
        s.ordered(),
    ensures
        ({
            let (emitted, left) = feed(s, Seq::empty(), pieces);
            emitted + sizing::chunk_bytes(left, sizing::cuts(s, left)) == sizing::chunk_bytes(
                pieces.flatten(),
                sizing::cuts(s, pieces.flatten()),
            )
        }),
{
    let pushed = pieces.flatten();
    lemma_stream_emits_settled(s, pieces);
    lemma_push(s, pushed, Seq::empty(), 0);
    assert(pushed + Seq::<u8>::empty() =~= pushed);
    assert(unsettled(s, pushed) + Seq::<u8>::empty() =~= unsettled(s, pushed));
}

/// Law: a feeder reports the chunks of slice chunking, with their offsets in
/// the stream, their states and their bytes, however the input is split into
/// pushes.
pub proof fn lemma_feeder_matches_slice(s: Sizes, pieces: Seq<Seq<u8>>)
    requires
        s.ordered(),
    ensures
        ({
            let (emitted, left, by) = feed_items(s, pieces);
            &&& emitted + items(left, sizing::cuts(s, left), by) == items(
                pieces.flatten(),
                sizing::cuts(s, pieces.flatten()),
                0,
            )
            &&& by + left.len() == pieces.flatten().len()
        }),
{
    let pushed = pieces.flatten();
    lemma_stream_emits_settled(s, pieces);
    lemma_settled_end(s, pushed, 0);
    lemma_push(s, pushed, Seq::empty(), 0);
    assert(pushed + Seq::<u8>::empty() =~= pushed);
    assert(unsettled(s, pushed) + Seq::<u8>::empty() =~= unsettled(s, pushed));
}

/// Law: settled are exactly the chunks with `max` bytes to look at from their
/// start, and they come first.
pub proof fn lemma_settled_chunks(s: Sizes, data: Seq<u8>)
    requires
        s.ordered(),
    ensures
        ({
            let all = sizing::cuts(s, data);
            let n = settled(s, data).len();
            &&& n <= all.len()
            &&& settled(s, data) == all.take(n as int)
            &&& forall|i: int|
                0 <= i < all.len() ==> (i < n <==> (#[trigger] all[i]).offset + s.max
                    <= data.len())
        }),
{
    lemma_settled_chunks_from(s, data, 0);
}

/// The same, from a cut on.
proof fn lemma_settled_chunks_from(s: Sizes, data: Seq<u8>, from: int)
    requires
        s.ordered(),
        0 <= from,
    ensures
        ({
            let all = sizing::cuts_from(s, data, from);
            let n = settled_from(s, data, from).len();
            &&& n <= all.len()
            &&& settled_from(s, data, from) == all.take(n as int)
            &&& forall|i: int|
                0 <= i < all.len() ==> (i < n <==> (#[trigger] all[i]).offset + s.max
                    <= data.len())
        }),
    decreases data.len() - from,
{
    let all = sizing::cuts_from(s, data, from);
    let first = settled_from(s, data, from);
    sizing::lemma_cuts_in_bounds(s, data, from);
    if data.len() - from < s.max {
        assert(first =~= all.take(0));
    } else {
        let c = s.next_cut(data.skip(from));
        sizing::lemma_next_cut(s, data.skip(from));
        lemma_settled_chunks_from(s, data, from + c);
        let rest = sizing::cuts_from(s, data, from + c);
        let n = first.len() as int;
        assert forall|i: int| 0 <= i < all.len() implies (i < n <==> (#[trigger] all[i]).offset
            + s.max <= data.len()) by {
            if i > 0 {
                assert(all[i] == rest[i - 1]);
            }
        }
        assert(first =~= all.take(n));
    }
}

/// What more input settles begins where less input had settled.
proof fn lemma_settled_more(s: Sizes, x: Seq<u8>, y: Seq<u8>, from: int)
    requires
        s.ordered(),
        0 <= from <= x.len(),
    ensures
        settled_from(s, x + y, from) == settled_from(s, x, from) + settled_from(
            s,
            x + y,
            settled_end(s, x, from),
        ),
        settled_end(s, x + y, from) == settled_end(s, x + y, settled_end(s, x, from)),
    decreases x.len() - from,
{
    let z = x + y;
    if x.len() - from >= s.max {
        let c = s.next_cut(x.skip(from));
        sizing::lemma_next_cut(s, x.skip(from));
        assert(z.skip(from) =~= x.skip(from) + y);
        lemma_lookahead(s, x.skip(from), y);
        lemma_settled_more(s, x, y, from + c);
    }
    assert(settled_from(s, z, from) =~= settled_from(s, x, from) + settled_from(
        s,
        z,
        settled_end(s, x, from),
    ));
}

/// What is settled from a cut on depends on the bytes after it alone.
proof fn lemma_settled_shift(s: Sizes, data: Seq<u8>, by: int, from: int)
    requires
        s.ordered(),
        0 <= by <= data.len(),
        0 <= from,
    ensures
        settled_from(s, data, by + from) == sizing::shifted(
            settled_from(s, data.skip(by), from),
            by,
        ),
        settled_end(s, data, by + from) == by + settled_end(s, data.skip(by), from),
    decreases data.len() - by - from,
{
    let tail = data.skip(by);
    if tail.len() - from >= s.max {
        assert(tail.skip(from) =~= data.skip(by + from));
        let c = s.next_cut(tail.skip(from));
        sizing::lemma_next_cut(s, tail.skip(from));
        lemma_settled_shift(s, data, by, from + c);
    }
    assert(settled_from(s, data, by + from) =~= sizing::shifted(settled_from(s, tail, from), by));
}

/// Law: splitting a push changes nothing. Pushing `x` and then `y` emits what
/// pushing both at once emits, and leaves the same pending; this holds of the
/// bytes and of the items that a feeder reports.
pub proof fn lemma_split_push(s: Sizes, x: Seq<u8>, y: Seq<u8>, by: int)
    requires
        s.ordered(),
    ensures
        ({
            let left = unsettled(s, x) + y;
            let e = settled_end(s, x, 0);
            &&& settled_bytes(s, x + y) == settled_bytes(s, x) + settled_bytes(s, left)
            &&& unsettled(s, x + y) == unsettled(s, left)
            &&& settled_end(s, x + y, 0) == e + settled_end(s, left, 0)
            &&& items(x + y, settled(s, x + y), by) == items(x, settled(s, x), by) + items(
                left,
                settled(s, left),
                by + e,
            )
        }),
{
    let z = x + y;
    let e = settled_end(s, x, 0);
    let left = unsettled(s, x) + y;
    lemma_settled_end(s, x, 0);
    lemma_settled_in_bounds(s, x, 0);
    assert(z.skip(e) =~= left);
    lemma_settled_more(s, x, y, 0);
    lemma_settled_shift(s, z, e, 0);
    lemma_settled_end(s, left, 0);
    lemma_settled_in_bounds(s, left, 0);
    assert(z.take(x.len() as int) =~= x);
    assert(unsettled(s, z) =~= unsettled(s, left));
    lemma_items_split(x, z, settled(s, x), settled(s, left), e, by);
}

/// Law: an empty push emits nothing and changes nothing, since less than `max`
/// bytes are pending at any time.
pub proof fn lemma_empty_push(s: Sizes, pending: Seq<u8>)
    requires
        s.ordered(),
        pending.len() < s.max,
    ensures
        settled(s, pending + Seq::empty()) == Seq::<Cut>::empty(),
        settled_bytes(s, pending + Seq::empty()) == Seq::<Seq<u8>>::empty(),
        unsettled(s, pending + Seq::empty()) == pending,
{
    assert(pending + Seq::<u8>::empty() =~= pending);
    assert(settled_bytes(s, pending) =~= Seq::empty());
    assert(unsettled(s, pending) =~= pending);
}

/// Law: what has been emitted after any pushes is what the bytes pushed so far
/// settle, and the rest of them is pending. How they were split into pushes
/// does not matter.
pub proof fn lemma_stream_emits_settled(s: Sizes, pieces: Seq<Seq<u8>>)
    requires
        s.ordered(),
    ensures
        ({
            let pushed = pieces.flatten();
            &&& feed(s, Seq::empty(), pieces) == (settled_bytes(s, pushed), unsettled(s, pushed))
            &&& feed_items(s, pieces) == (
                items(pushed, settled(s, pushed), 0),
                unsettled(s, pushed),
                settled_end(s, pushed, 0),
            )
            &&& unsettled(s, pushed).len() < s.max
        }),
    decreases pieces.len(),
{
    let pushed = pieces.flatten();
    lemma_settled_end(s, pushed, 0);
    if pieces.len() == 0 {
        assert(pushed =~= Seq::<u8>::empty());
        assert(settled_bytes(s, pushed) =~= Seq::empty());
        assert(unsettled(s, pushed) =~= Seq::empty());
        assert(items(pushed, settled(s, pushed), 0) =~= Seq::empty());
    } else {
        let before = pieces.drop_last();
        lemma_stream_emits_settled(s, before);
        before.lemma_flatten_push(pieces.last());
        assert(before.push(pieces.last()) =~= pieces);
        lemma_split_push(s, before.flatten(), pieces.last(), 0);
    }
}

/// Law: two ways to split the same bytes into pushes end in the same state,
/// with the same emitted.
pub proof fn lemma_pushes_alike(s: Sizes, pieces: Seq<Seq<u8>>, others: Seq<Seq<u8>>)
    requires
        s.ordered(),
        pieces.flatten() == others.flatten(),
    ensures
        feed(s, Seq::empty(), pieces) == feed(s, Seq::empty(), others),
        feed_items(s, pieces) == feed_items(s, others),
{
    lemma_stream_emits_settled(s, pieces);
    lemma_stream_emits_settled(s, others);
}

} // verus!
