//! The rolling state, as mathematics: one 16-bit xor-gear step per byte, and
//! the first position at which the state meets a mask.
use vstd::prelude::*;

use crate::table;

verus! {

/// The state after one more byte: `(h << 1) ^ T[b]` in 16 bits.
pub open spec fn step(h: u16, b: u8) -> u16 {
    (h << 1) ^ table::table_entry(b)
}

/// The state after all of `data`, starting from `h`.
pub open spec fn state_after(h: u16, data: Seq<u8>) -> u16
    decreases data.len(),
{
    if data.len() == 0 {
        h
    } else {
        step(state_after(h, data.drop_last()), data.last())
    }
}

/// `h << n` in 16 bits; everything is shifted out from 16 on.
pub open spec fn shl(h: u16, n: nat) -> u16 {
    if n < 16 {
        h << (n as u16)
    } else {
        0
    }
}

/// The state after the first `k` bytes of `data` has no bit in common with `m`:
/// a cut may fall after those `k` bytes.
pub open spec fn fires(h: u16, data: Seq<u8>, m: u16, k: int) -> bool {
    state_after(h, data.take(k)) & m == 0
}

/// The first cut falls after `k` bytes.
pub open spec fn is_first_cut(h: u16, data: Seq<u8>, m: u16, k: int) -> bool {
    &&& 1 <= k <= data.len()
    &&& fires(h, data, m, k)
    &&& forall|j: int| 1 <= j < k ==> !fires(h, data, m, j)
}

/// No byte position of `data` fires.
pub open spec fn no_cut(h: u16, data: Seq<u8>, m: u16) -> bool {
    forall|j: int| 1 <= j <= data.len() ==> !fires(h, data, m, j)
}

/// The length after which the first cut falls, if any position fires.
pub open spec fn first_cut(h: u16, data: Seq<u8>, m: u16) -> Option<int> {
    if exists|k: int| is_first_cut(h, data, m, k) {
        Some(choose|k: int| is_first_cut(h, data, m, k))
    } else {
        None
    }
}

/// What a boundary search over `data` returns: the length up to and with the
/// first firing byte and the state there, or nothing and the state at the end.
/// Of `h` and `mask` the low 16 bits count.
pub open spec fn scan_result(data: Seq<u8>, h: u64, mask: u64) -> (Option<usize>, u64) {
    match first_cut(h as u16, data, mask as u16) {
        Some(k) => (Some(k as usize), state_after(h as u16, data.take(k)) as u64),
        None => (None, state_after(h as u16, data) as u64),
    }
}

/// There is at most one first cut.
pub proof fn lemma_first_cut_unique(h: u16, data: Seq<u8>, m: u16, k: int)
    requires
        is_first_cut(h, data, m, k),
    ensures
        first_cut(h, data, m) == Some(k),
{
    let c = choose|c: int| is_first_cut(h, data, m, c);
    assert(is_first_cut(h, data, m, c));
    if c < k {
        assert(!fires(h, data, m, c));
    } else if k < c {
        assert(!fires(h, data, m, k));
    }
}

/// Law: the search comes back empty exactly when no position fires, and what
/// it finds otherwise is the first position that does.
pub proof fn lemma_first_cut(h: u16, data: Seq<u8>, m: u16)
    ensures
        first_cut(h, data, m) is None <==> no_cut(h, data, m),
        first_cut(h, data, m) matches Some(k) ==> is_first_cut(h, data, m, k),
{
    if !no_cut(h, data, m) {
        let j = choose|j: int| 1 <= j <= data.len() && fires(h, data, m, j);
        lemma_least(h, data, m, j);
    } else if exists|k: int| is_first_cut(h, data, m, k) {
        let k = choose|k: int| is_first_cut(h, data, m, k);
        assert(fires(h, data, m, k));
    }
}

/// Where some position fires, one fires first.
proof fn lemma_least(h: u16, data: Seq<u8>, m: u16, j: int)
    requires
        1 <= j <= data.len(),
        fires(h, data, m, j),
    ensures
        exists|k: int| is_first_cut(h, data, m, k),
    decreases j,
{
    if forall|i: int| 1 <= i < j ==> !fires(h, data, m, i) {
        assert(is_first_cut(h, data, m, j));
    } else {
        let i = choose|i: int| 1 <= i < j && fires(h, data, m, i);
        lemma_least(h, data, m, i);
    }
}

/// The state over a concatenation is the state over the second part, carried
/// on from the state over the first.
pub proof fn lemma_state_concat(h: u16, x: Seq<u8>, y: Seq<u8>)
    ensures
        state_after(h, x + y) == state_after(state_after(h, x), y),
    decreases y.len(),
{
    if y.len() == 0 {
        assert(x + y =~= x);
    } else {
        assert((x + y).drop_last() =~= x + y.drop_last());
        lemma_state_concat(h, x, y.drop_last());
    }
}

/// Shifting is additive over 16-bit xor, and one more step shifts once more.
proof fn lemma_shl_step(h: u16, n: nat, s: u16, t: u16)
    ensures
        ((shl(h, n) ^ s) << 1) ^ t == shl(h, n + 1) ^ ((s << 1) ^ t),
{
    let a = shl(h, n);
    assert(((a ^ s) << 1) ^ t == (a << 1) ^ ((s << 1) ^ t)) by (bit_vector);
    if n < 16 {
        let k = n as u16;
        let k1 = (n + 1) as u16;
        assert(k < 15 ==> (h << k) << 1 == h << k1) by (bit_vector)
            requires
                k1 == k + 1,
        ;
        assert(k == 15 ==> (h << k) << 1 == 0u16) by (bit_vector);
    } else {
        assert(0u16 << 1 == 0u16) by (bit_vector);
    }
}

/// The carried-in state only adds its own shifted bits: state bits never
/// interact with table bits.
pub proof fn lemma_state_linear(h: u16, data: Seq<u8>)
    ensures
        state_after(h, data) == shl(h, data.len()) ^ state_after(0, data),
    decreases data.len(),
{
    if data.len() == 0 {
        assert(h << 0u16 == h) by (bit_vector);
        assert(h ^ 0u16 == h) by (bit_vector);
    } else {
        let init = data.drop_last();
        lemma_state_linear(h, init);
        lemma_shl_step(h, init.len(), state_after(0, init), table::table_entry(data.last()));
    }
}

/// Law: after 16 bytes or more, the state no longer depends on what was
/// carried in.
pub proof fn lemma_state_forgets(h: u16, g: u16, data: Seq<u8>)
    requires
        data.len() >= 16,
    ensures
        state_after(h, data) == state_after(g, data),
{
    lemma_state_linear(h, data);
    lemma_state_linear(g, data);
}

/// Law: the hash window is 16 bytes. The state depends on the last 16 bytes
/// alone, whatever came before them.
pub proof fn lemma_state_window(h: u16, data: Seq<u8>, g: u16)
    requires
        data.len() >= 16,
    ensures
        state_after(h, data) == state_after(g, data.skip(data.len() - 16)),
{
    let cut = data.len() - 16;
    assert(data =~= data.take(cut) + data.skip(cut));
    lemma_state_concat(h, data.take(cut), data.skip(cut));
    lemma_state_forgets(state_after(h, data.take(cut)), g, data.skip(cut));
}

/// A position past `i` is reached by carrying the state over from `i`.
pub proof fn lemma_state_resume(h: u16, data: Seq<u8>, i: int, k: int)
    requires
        0 <= i <= data.len(),
        0 <= k <= data.len() - i,
    ensures
        state_after(h, data.take(i + k)) == state_after(
            state_after(h, data.take(i)),
            data.skip(i).take(k),
        ),
{
    assert(data.take(i + k) =~= data.take(i) + data.skip(i).take(k));
    lemma_state_concat(h, data.take(i), data.skip(i).take(k));
}

/// Law: a search may be split anywhere. Where the first `i` positions do not
/// fire, searching the rest from the carried state finds what searching the
/// whole finds.
pub proof fn lemma_scan_resume(h: u16, data: Seq<u8>, m: u16, i: int)
    requires
        0 <= i <= data.len(),
        forall|j: int| 1 <= j <= i ==> !fires(h, data, m, j),
    ensures
        first_cut(h, data, m) == (match first_cut(
            state_after(h, data.take(i)),
            data.skip(i),
            m,
        ) {
            Some(k) => Some(i + k),
            None => None,
        }),
        state_after(h, data) == state_after(state_after(h, data.take(i)), data.skip(i)),
{
    let g = state_after(h, data.take(i));
    let rest = data.skip(i);
    assert forall|k: int| 0 <= k <= rest.len() implies fires(h, data, m, i + k) == fires(
        g,
        rest,
        m,
        k,
    ) by {
        lemma_state_resume(h, data, i, k);
    }
    lemma_first_cut(g, rest, m);
    match first_cut(g, rest, m) {
        Some(k) => {
            assert(fires(h, data, m, i + k));
            assert forall|j: int| 1 <= j < i + k implies !fires(h, data, m, j) by {
                if j > i {
                    assert(!fires(g, rest, m, j - i));
                    assert(fires(h, data, m, i + (j - i)) == fires(g, rest, m, j - i));
                }
            }
            lemma_first_cut_unique(h, data, m, i + k);
        },
        None => {
            assert forall|j: int| 1 <= j <= data.len() implies !fires(h, data, m, j) by {
                if j > i {
                    assert(!fires(g, rest, m, j - i));
                    assert(fires(h, data, m, i + (j - i)) == fires(g, rest, m, j - i));
                }
            }
            lemma_first_cut(h, data, m);
        },
    }
    assert(data =~= data.take(i) + rest);
    lemma_state_concat(h, data.take(i), rest);
}

/// The state after all of `data` when it is kept in 64 bits, with the table
/// `t`.
pub open spec fn wide_state_after(t: spec_fn(u8) -> u64, w: u64, data: Seq<u8>) -> u64
    decreases data.len(),
{
    if data.len() == 0 {
        w
    } else {
        (wide_state_after(t, w, data.drop_last()) << 1) ^ t(data.last())
    }
}

/// Law: a truncated state is exact. The low 16 bits of a wider state are the
/// 16-bit state over the low 16 bits of what it is made of.
pub proof fn lemma_truncation_exact(t: spec_fn(u8) -> u64, w: u64, data: Seq<u8>)
    requires
        forall|b: u8| (#[trigger] t(b)) as u16 == table::table_entry(b),
    ensures
        wide_state_after(t, w, data) as u16 == state_after(w as u16, data),
    decreases data.len(),
{
    if data.len() > 0 {
        lemma_truncation_exact(t, w, data.drop_last());
        let v = wide_state_after(t, w, data.drop_last());
        let e = t(data.last());
        assert(((v << 1) ^ e) as u16 == ((v as u16) << 1) ^ (e as u16)) by (bit_vector);
    }
}

} // verus!
