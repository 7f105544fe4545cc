//! The figures of a chunking report: chunk lengths and content hashes, the
//! length histogram, and how many bytes deduplicate.
use std::collections::hash_map::DefaultHasher;
use std::collections::{HashMap, HashSet};
use std::hash::Hasher;
use vstd::arithmetic::power2::*;
use vstd::bytes::*;
use vstd::prelude::*;
use vstd::std_specs::hash::*;

use crate::chunker::Chunker;
use crate::partition;
use crate::sizing;
use crate::sizing::Sizes;

verus! {

/// The sum of the `lens` at the indices below `n` that `p` picks.
pub open spec fn sum_where(lens: Seq<usize>, p: spec_fn(int) -> bool, n: int) -> int
    decreases n,
{
    if n <= 0 {
        0
    } else {
        sum_where(lens, p, n - 1) + if p(n - 1) {
            lens[n - 1] as int
        } else {
            0
        }
    }
}

/// The number of indices below `n` that `p` picks.
pub open spec fn count_where(p: spec_fn(int) -> bool, n: int) -> int
    decreases n,
{
    if n <= 0 {
        0
    } else {
        count_where(p, n - 1) + if p(n - 1) {
            1int
        } else {
            0
        }
    }
}

/// The sum of all `lens`.
pub open spec fn total(lens: Seq<usize>) -> int {
    sum_where(lens, |i: int| true, lens.len() as int)
}

/// A partial sum lies between zero and the sum of all.
pub proof fn lemma_sum_bounds(lens: Seq<usize>, p: spec_fn(int) -> bool, n: int, m: int)
    requires
        0 <= n <= m <= lens.len(),
    ensures
        0 <= sum_where(lens, p, n) <= sum_where(lens, p, m),
        sum_where(lens, p, m) <= total(lens),
{
    let all = |i: int| true;
    lemma_sum_part(lens, p, all, m);
    lemma_sum_monotone(lens, all, m, lens.len() as int);
    lemma_sum_monotone(lens, p, n, m);
}

proof fn lemma_sum_monotone(lens: Seq<usize>, p: spec_fn(int) -> bool, n: int, m: int)
    requires
        0 <= n <= m <= lens.len(),
    ensures
        0 <= sum_where(lens, p, n) <= sum_where(lens, p, m),
    decreases m,
{
    if n < m {
        lemma_sum_monotone(lens, p, n, m - 1);
    } else if m > 0 {
        lemma_sum_monotone(lens, p, n - 1, m - 1);
    }
}

proof fn lemma_sum_part(lens: Seq<usize>, p: spec_fn(int) -> bool, q: spec_fn(int) -> bool, n: int)
    requires
        0 <= n <= lens.len(),
        forall|i: int| #[trigger] p(i) ==> q(i),
    ensures
        sum_where(lens, p, n) <= sum_where(lens, q, n),
    decreases n,
{
    if n > 0 {
        lemma_sum_part(lens, p, q, n - 1);
    }
}

/// Equal picks give equal sums and counts.
pub proof fn lemma_where_equal(
    lens: Seq<usize>,
    p: spec_fn(int) -> bool,
    q: spec_fn(int) -> bool,
    n: int,
)
    requires
        forall|i: int| 0 <= i < n ==> p(i) == #[trigger] q(i),
    ensures
        sum_where(lens, p, n) == sum_where(lens, q, n),
        count_where(p, n) == count_where(q, n),
    decreases n,
{
    if n > 0 {
        lemma_where_equal(lens, p, q, n - 1);
    }
}

/// What is picked and what is not make up the whole.
pub proof fn lemma_where_split(lens: Seq<usize>, p: spec_fn(int) -> bool, n: int)
    requires
        0 <= n <= lens.len(),
    ensures
        sum_where(lens, p, n) + sum_where(lens, |i: int| !p(i), n) == sum_where(
            lens,
            |i: int| true,
            n,
        ),
        0 <= count_where(p, n) <= n,
    decreases n,
{
    if n > 0 {
        lemma_where_split(lens, p, n - 1);
    }
}

/// The order in which a machine keeps the bytes of a number.
#[derive(Debug, Clone, Copy, PartialEq, Eq, Structural)]
pub enum ByteOrder {
    /// Lowest byte first.
    Little,
    /// Highest byte first.
    Big,
}

/// A number as a machine keeps it: as many bytes as `usize` has, in the given
/// order.
pub open spec fn native_bytes(order: ByteOrder, n: usize) -> Seq<u8> {
    let lowest_first = if usize::BITS == 64 {
        spec_u64_to_le_bytes(n as u64)
    } else {
        spec_u32_to_le_bytes(n as u32)
    };
    match order {
        ByteOrder::Little => lowest_first,
        ByteOrder::Big => lowest_first.reverse(),
    }
}

/// A number as a machine with the given byte order keeps it.
fn to_native_bytes(order: ByteOrder, n: usize) -> (bytes: Vec<u8>)
    ensures
        bytes@ == native_bytes(order, n),
{
    let lowest_first = if usize::BITS == 64 {
        u64_to_le_bytes(n as u64)
    } else {
        u32_to_le_bytes(n as u32)
    };
    match order {
        ByteOrder::Little => lowest_first,
        ByteOrder::Big => {
            let mut bytes: Vec<u8> = Vec::new();
            let mut left: usize = lowest_first.len();
            while left > 0
                invariant
                    left <= lowest_first.len(),
                    bytes.len() == lowest_first.len() - left,
                    forall|i: int|
                        0 <= i < bytes.len() ==> #[trigger] bytes@[i] == lowest_first@.reverse()[i],
                decreases left,
            {
                left = left - 1;
                bytes.push(lowest_first[left]);
            }
            assert(bytes@ =~= lowest_first@.reverse());
            bytes
        },
    }
}

/// The content hash of a chunk, as a value of the standard library's default
/// hasher: of the length, as the machine keeps it, then of the bytes.
pub open spec fn chunk_hash_of(order: ByteOrder, bytes: Seq<u8>) -> u64 {
    DefaultHasher::spec_finish(seq![native_bytes(order, bytes.len() as usize), bytes])
}

/// Content hash of a chunk. With the byte order of the machine, it is what the
/// standard library's default hasher makes of the chunk as a slice.
pub fn chunk_hash(order: ByteOrder, c: &[u8]) -> (h: u64)
    ensures
        h == chunk_hash_of(order, c@),
        h == DefaultHasher::spec_finish(seq![native_bytes(order, c@.len() as usize), c@]),
{
    let mut h = DefaultHasher::new();
    let len = to_native_bytes(order, c.len());
    h.write(len.as_slice());
    h.write(c);
    assert(h@ =~= seq![native_bytes(order, c@.len() as usize), c@]);
    h.finish()
}

/// The lengths of the chunks of `data`.
pub open spec fn chunk_lens_of(s: Sizes, data: Seq<u8>) -> Seq<usize> {
    sizing::lengths(sizing::cuts(s, data)).map_values(|l: int| l as usize)
}

/// Lengths of the chunks of `data`.
pub fn chunk_lens(c: &Chunker, data: &[u8]) -> (lens: Vec<usize>)
    requires
        c.wf(),
    ensures
        lens@ == chunk_lens_of(c@, data@),
        lens@.map_values(|l: usize| l as int) == sizing::lengths(sizing::cuts(c@, data@)),
        lens@.len() == sizing::cuts(c@, data@).len(),
        forall|i: int|
            0 <= i < lens@.len() ==> #[trigger] lens@[i] == sizing::cuts(c@, data@)[i].length,
        total(lens@) == data@.len(),
{
    let ends = c.cut_points(data);
    let ghost list = sizing::cuts(c@, data@);
    proof {
        sizing::lemma_ordered(c@);
        partition::lemma_contiguous(c@, data@);
        let e = ends@.map_values(|x: usize| x as int);
        assert(e.len() == list.len());
        assert forall|j: int| 0 <= j < list.len() implies #[trigger] ends@[j] == list[j].offset
            + list[j].length by {
            assert(e[j] == sizing::end_offsets(list)[j]);
        }
        sizing::lemma_cuts_in_bounds(c@, data@, 0);
    }
    let mut lens: Vec<usize> = Vec::new();
    let mut off: usize = 0;
    let mut i: usize = 0;
    while i < ends.len()
        invariant
            list == sizing::cuts(c@, data@),
            ends.len() == list.len(),
            lens.len() == i,
            i <= ends.len(),
            i < list.len() ==> off == list[i as int].offset,
            i > 0 ==> off == ends@[i - 1],
            i == 0 ==> off == 0,
            forall|j: int|
                0 <= j < list.len() ==> #[trigger] ends@[j] == list[j].offset + list[j].length,
            forall|j: int|
                0 <= j < list.len() - 1 ==> #[trigger] list[j].offset + list[j].length == list[j
                    + 1].offset,
            forall|j: int| 0 <= j < list.len() ==> 0 < #[trigger] list[j].length,
            forall|j: int| 0 <= j < i ==> #[trigger] lens@[j] == list[j].length,
            sum_where(lens@, |k: int| true, i as int) == off,
        decreases ends.len() - i,
    {
        let end: usize = ends[i];
        let ghost before = lens@;
        assert(end == list[i as int].offset + list[i as int].length);
        assert(list[i as int].offset == off);
        lens.push(end - off);
        proof {
            lemma_sum_prefix(before, lens@, |k: int| true, i as int);
        }
        off = end;
        i = i + 1;
    }
    proof {
        assert(lens@.map_values(|l: usize| l as int) =~= sizing::lengths(list));
        assert(lens@ =~= chunk_lens_of(c@, data@));
        if data@.len() > 0 {
            assert(ends@[list.len() - 1] == list.last().offset + list.last().length);
        }
    }
    lens
}

/// A sum depends on the entries that it runs over alone.
pub proof fn lemma_sum_prefix(a: Seq<usize>, b: Seq<usize>, p: spec_fn(int) -> bool, n: int)
    requires
        0 <= n <= a.len(),
        n <= b.len(),
        forall|i: int| 0 <= i < n ==> a[i] == b[i],
    ensures
        sum_where(a, p, n) == sum_where(b, p, n),
    decreases n,
{
    if n > 0 {
        lemma_sum_prefix(a, b, p, n - 1);
    }
}

/// The content hashes of the chunks of `data`.
pub open spec fn chunk_hashes_of(order: ByteOrder, s: Sizes, data: Seq<u8>) -> Seq<u64> {
    sizing::chunk_bytes(data, sizing::cuts(s, data)).map_values(
        |b: Seq<u8>| chunk_hash_of(order, b),
    )
}

/// Content hashes of the chunks of `data`.
pub fn chunk_hashes(order: ByteOrder, c: &Chunker, data: &[u8]) -> (hashes: Vec<u64>)
    requires
        c.wf(),
    ensures
        hashes@ == chunk_hashes_of(order, c@, data@),
        hashes@.len() == sizing::cuts(c@, data@).len(),
        forall|i: int|
            0 <= i < hashes@.len() ==> {
                let k = sizing::cuts(c@, data@)[i];
                #[trigger] hashes@[i] == DefaultHasher::spec_finish(
                    seq![
                        native_bytes(order, k.length as usize),
                        data@.subrange(k.offset, k.offset + k.length),
                    ],
                )
            },
{
    let chunks = c.chunks(data).collect();
    let ghost bytes = sizing::chunk_bytes(data@, sizing::cuts(c@, data@));
    let ghost views = chunks@.map_values(|b: &[u8]| b@);
    let mut hashes: Vec<u64> = Vec::new();
    let mut i: usize = 0;
    while i < chunks.len()
        invariant
            views == chunks@.map_values(|b: &[u8]| b@),
            views == bytes,
            i <= chunks.len(),
            hashes.len() == i,
            forall|j: int| 0 <= j < i ==> #[trigger] hashes@[j] == chunk_hash_of(order, bytes[j]),
        decreases chunks.len() - i,
    {
        assert(views[i as int] == chunks@[i as int]@);
        hashes.push(chunk_hash(order, chunks[i]));
        i = i + 1;
    }
    assert(hashes@ =~= chunk_hashes_of(order, c@, data@));
    proof {
        sizing::lemma_ordered(c@);
        sizing::lemma_cuts_in_bounds(c@, data@, 0);
    }
    hashes
}

/// What chunking one file comes to.
#[derive(Debug)]
pub struct FileStats {
    pub bytes: usize,
    pub lens: Vec<usize>,
    pub hashes: Vec<u64>,
}

impl FileStats {
    /// There is one hash per length, and the lengths make up the bytes.
    pub open spec fn wf(self) -> bool {
        &&& self.hashes@.len() == self.lens@.len()
        &&& total(self.lens@) == self.bytes
    }
}

/// What chunking `data` comes to.
pub fn chunk_file(order: ByteOrder, c: &Chunker, data: &[u8]) -> (st: FileStats)
    requires
        c.wf(),
    ensures
        st.wf(),
        st.bytes == data@.len(),
        st.lens@ == chunk_lens_of(c@, data@),
        st.hashes@ == chunk_hashes_of(order, c@, data@),
{
    let lens = chunk_lens(c, data);
    let hashes = chunk_hashes(order, c, data);
    assert(lens@.len() == lens@.map_values(|l: usize| l as int).len());
    FileStats { bytes: data.len(), lens, hashes }
}

/// The shortest and the longest length; zero for both of an empty list.
pub fn extremes(lens: &[usize]) -> (r: (usize, usize))
    ensures
        lens@.len() == 0 ==> r == (0usize, 0usize),
        lens@.len() > 0 ==> lens@.contains(r.0) && lens@.contains(r.1),
        forall|i: int| 0 <= i < lens@.len() ==> r.0 <= #[trigger] lens@[i] <= r.1,
{
    if lens.len() == 0 {
        return (0, 0);
    }
    let mut least: usize = lens[0];
    let mut most: usize = lens[0];
    let mut i: usize = 1;
    while i < lens.len()
        invariant
            0 < i <= lens.len(),
            lens@.contains(least),
            lens@.contains(most),
            forall|j: int| 0 <= j < i ==> least <= #[trigger] lens@[j] <= most,
        decreases lens.len() - i,
    {
        let l: usize = lens[i];
        assert(lens@[i as int] == l);
        if l < least {
            least = l;
        }
        if l > most {
            most = l;
        }
        i = i + 1;
    }
    (least, most)
}

/// The hash at `i` occurs in `known` or before `i`.
pub open spec fn repeats(known: Set<u64>, hashes: Seq<u64>, i: int) -> bool {
    known.contains(hashes[i]) || hashes.take(i).contains(hashes[i])
}

/// The bytes of the chunks that repeat.
pub open spec fn repeated(known: Set<u64>, hashes: Seq<u64>, lens: Seq<usize>) -> int {
    sum_where(lens, |i: int| repeats(known, hashes, i), lens.len() as int)
}

/// The bytes of the chunks that do not.
pub open spec fn novel(known: Set<u64>, hashes: Seq<u64>, lens: Seq<usize>) -> int {
    sum_where(lens, |i: int| !repeats(known, hashes, i), lens.len() as int)
}

/// Law: what repeats and what does not make up all of the bytes.
pub proof fn lemma_repeated_and_novel(known: Set<u64>, hashes: Seq<u64>, lens: Seq<usize>)
    ensures
        repeated(known, hashes, lens) + novel(known, hashes, lens) == total(lens),
        0 <= novel(known, hashes, lens) <= total(lens),
{
    let p = |i: int| repeats(known, hashes, i);
    let n = lens.len() as int;
    lemma_where_split(lens, p, n);
    lemma_where_equal(lens, |i: int| !p(i), |i: int| !repeats(known, hashes, i), n);
    lemma_sum_bounds(lens, |i: int| !repeats(known, hashes, i), 0, n);
    lemma_sum_bounds(lens, p, 0, n);
}

/// Adds the chunks of a file to the known ones. Returns the bytes of those that
/// were not known before.
fn note_chunks(known: &mut HashMap<u64, usize>, st: &FileStats) -> (n: usize)
    requires
        st.wf(),
    ensures
        final(known)@.dom() == old(known)@.dom() + st.hashes@.to_set(),
        n == novel(old(known)@.dom(), st.hashes@, st.lens@),
{
    broadcast use group_hash_axioms;

    let ghost before = known@.dom();
    let ghost p = |i: int| !repeats(before, st.hashes@, i);
    let mut n: usize = 0;
    let mut i: usize = 0;
    proof {
        assert(st.hashes@.take(0).to_set() =~= Set::<u64>::empty());
        assert(known@.dom() =~= before + st.hashes@.take(0).to_set());
    }
    while i < st.hashes.len()
        invariant
            st.wf(),
            obeys_key_model::<u64>(),
            builds_valid_hashers::<std::hash::RandomState>(),
            i <= st.hashes.len(),
            p == (|i: int| !repeats(before, st.hashes@, i)),
            n == sum_where(st.lens@, p, i as int),
            known@.dom() == before + st.hashes@.take(i as int).to_set(),
        decreases st.hashes.len() - i,
    {
        let h: u64 = st.hashes[i];
        let l: usize = st.lens[i];
        proof {
            lemma_sum_bounds(st.lens@, p, i + 1, st.lens@.len() as int);
            let earlier = st.hashes@.take(i as int);
            assert(earlier.push(h) =~= st.hashes@.take(i + 1));
            assert(earlier.to_set().insert(h) =~= st.hashes@.take(i + 1).to_set()) by {
                assert forall|x: u64| earlier.to_set().insert(h).contains(x)
                    == st.hashes@.take(i + 1).to_set().contains(x) by {
                    let longer = st.hashes@.take(i + 1);
                    assert(longer[i as int] == h);
                    if earlier.contains(x) {
                        let k = earlier.index_of(x);
                        assert(longer[k] == x);
                    }
                    if longer.contains(x) && x != h {
                        let k = longer.index_of(x);
                        assert(earlier[k] == x);
                    }
                }
            }
            assert((before + earlier.to_set()).insert(h) =~= before + earlier.to_set().insert(h));
            assert(known@.contains_key(h) == repeats(before, st.hashes@, i as int));
        }
        if known.insert(h, l).is_none() {
            n = n + l;
        }
        i = i + 1;
    }
    proof {
        assert(st.hashes@.take(i as int) =~= st.hashes@);
    }
    n
}

/// Bytes of the chunks that repeat an earlier chunk of the same file.
pub fn repeated_bytes(st: &FileStats) -> (n: usize)
    requires
        st.wf(),
    ensures
        n == repeated(Set::empty(), st.hashes@, st.lens@),
        n <= st.bytes,
{
    let mut seen: HashMap<u64, usize> = HashMap::new();
    proof {
        assert(seen@.dom() =~= Set::empty());
        lemma_repeated_and_novel(Set::empty(), st.hashes@, st.lens@);
    }
    let fresh: usize = note_chunks(&mut seen, st);
    st.bytes - fresh
}

/// The running totals of a set of files, in which a chunk that occurs again is
/// stored once.
pub struct Corpus {
    seen: HashMap<u64, usize>,
    total_bytes: usize,
    total_chunks: usize,
    stored_bytes: usize,
}

impl Corpus {
    /// No more is stored than was read, in finitely many chunks.
    pub open spec fn wf(self) -> bool {
        &&& 0 <= self.stored() <= self.bytes() <= usize::MAX
        &&& self.known().finite()
    }

    /// The content hashes of the stored chunks.
    pub closed spec fn known(self) -> Set<u64> {
        self.seen@.dom()
    }

    /// The bytes of all files.
    pub closed spec fn bytes(self) -> int {
        self.total_bytes as int
    }

    /// The number of chunks of all files.
    pub closed spec fn chunks(self) -> int {
        self.total_chunks as int
    }

    /// The bytes of the stored chunks.
    pub closed spec fn stored(self) -> int {
        self.stored_bytes as int
    }

    /// No files.
    pub fn new() -> (c: Corpus)
        ensures
            c.wf(),
            c.known() == Set::<u64>::empty(),
            c.bytes() == 0,
            c.chunks() == 0,
            c.stored() == 0,
    {
        let seen: HashMap<u64, usize> = HashMap::new();
        assert(seen@.dom() =~= Set::empty());
        Corpus { seen, total_bytes: 0, total_chunks: 0, stored_bytes: 0 }
    }

    /// Adds a file.
    pub fn absorb(&mut self, st: &FileStats)
        requires
            old(self).wf(),
            st.wf(),
            old(self).bytes() + st.bytes <= usize::MAX,
            old(self).chunks() + st.lens@.len() <= usize::MAX,
        ensures
            final(self).wf(),
            final(self).known() == old(self).known() + st.hashes@.to_set(),
            final(self).bytes() == old(self).bytes() + st.bytes,
            final(self).chunks() == old(self).chunks() + st.lens@.len(),
            final(self).stored() == old(self).stored() + novel(
                old(self).known(),
                st.hashes@,
                st.lens@,
            ),
    {
        proof {
            lemma_repeated_and_novel(self.seen@.dom(), st.hashes@, st.lens@);
        }
        let fresh: usize = note_chunks(&mut self.seen, st);
        proof {
            vstd::seq_lib::seq_to_set_is_finite(st.hashes@);
        }
        self.total_bytes = self.total_bytes + st.bytes;
        self.total_chunks = self.total_chunks + st.lens.len();
        self.stored_bytes = self.stored_bytes + fresh;
    }

    /// The bytes of all files.
    pub fn total_bytes(&self) -> (n: usize)
        ensures
            n == self.bytes(),
    {
        self.total_bytes
    }

    /// The number of chunks of all files.
    pub fn total_chunks(&self) -> (n: usize)
        ensures
            n == self.chunks(),
    {
        self.total_chunks
    }

    /// The number of chunks that differ in content.
    pub fn unique_chunks(&self) -> (n: usize)
        ensures
            n == self.known().len(),
    {
        broadcast use group_hash_axioms;

        self.seen.len()
    }

    /// The bytes of the stored chunks.
    pub fn stored_bytes(&self) -> (n: usize)
        ensures
            n == self.stored(),
    {
        self.stored_bytes
    }

    /// The bytes that need not be stored.
    pub fn deduped_bytes(&self) -> (n: usize)
        requires
            self.wf(),
        ensures
            n == self.bytes() - self.stored(),
    {
        self.total_bytes - self.stored_bytes
    }
}

/// How much of a new version occurs in an old one.
#[derive(Debug, Clone, Copy, PartialEq, Eq, Structural)]
pub struct Comparison {
    /// Bytes of the new version in chunks of the old one.
    pub shared: usize,
    /// Bytes of the new version in other chunks.
    pub fresh: usize,
    /// Number of those other chunks.
    pub fresh_chunks: usize,
    /// Number of chunks of the new version.
    pub total_chunks: usize,
}

/// `r` is how chunks with the given hashes and lengths compare with older ones.
pub open spec fn is_comparison(
    old_hashes: Seq<u64>,
    hashes: Seq<u64>,
    lens: Seq<usize>,
    r: Comparison,
) -> bool {
    let n = lens.len() as int;
    &&& r.shared == sum_where(lens, |i: int| old_hashes.contains(hashes[i]), n)
    &&& r.fresh == sum_where(lens, |i: int| !old_hashes.contains(hashes[i]), n)
    &&& r.fresh_chunks == count_where(|i: int| !old_hashes.contains(hashes[i]), n)
    &&& r.total_chunks == n
}

/// Compares the chunks of a new version with those of an old one.
pub fn compare_chunks(old_hashes: &[u64], new: &FileStats) -> (r: Comparison)
    requires
        new.wf(),
    ensures
        is_comparison(old_hashes@, new.hashes@, new.lens@, r),
        r.shared + r.fresh == new.bytes,
        r.fresh_chunks <= r.total_chunks,
{
    broadcast use group_hash_axioms;

    let mut known: HashSet<u64> = HashSet::new();
    let mut j: usize = 0;
    while j < old_hashes.len()
        invariant
            obeys_key_model::<u64>(),
            builds_valid_hashers::<std::hash::RandomState>(),
            j <= old_hashes.len(),
            forall|h: u64| known@.contains(h) <==> old_hashes@.take(j as int).contains(h),
        decreases old_hashes.len() - j,
    {
        let ghost before = old_hashes@.take(j as int);
        let ghost after = old_hashes@.take(j + 1);
        let ghost known_before = known@;
        let h: u64 = old_hashes[j];
        known.insert(h);
        proof {
            assert(after =~= before.push(h));
            assert forall|x: u64| known@.contains(x) <==> after.contains(x) by {
                assert(after[j as int] == h);
                if known_before.contains(x) {
                    let k = before.index_of(x);
                    assert(after[k] == x);
                }
                if after.contains(x) && x != h {
                    let k = after.index_of(x);
                    assert(before[k] == x);
                }
            }
        }
        j = j + 1;
    }
    assert(old_hashes@.take(j as int) =~= old_hashes@);
    let ghost is_old = |i: int| old_hashes@.contains(new.hashes@[i]);
    let ghost is_new = |i: int| !old_hashes@.contains(new.hashes@[i]);
    let ghost all = new.lens@.len() as int;
    proof {
        lemma_where_split(new.lens@, is_old, all);
        lemma_where_equal(new.lens@, |i: int| !is_old(i), is_new, all);
        lemma_where_split(new.lens@, is_new, all);
    }
    let mut r = Comparison { shared: 0, fresh: 0, fresh_chunks: 0, total_chunks: 0 };
    while r.total_chunks < new.hashes.len()
        invariant
            new.wf(),
            obeys_key_model::<u64>(),
            builds_valid_hashers::<std::hash::RandomState>(),
            all == new.lens@.len(),
            r.total_chunks <= all,
            is_old == (|i: int| old_hashes@.contains(new.hashes@[i])),
            is_new == (|i: int| !old_hashes@.contains(new.hashes@[i])),
            forall|h: u64| known@.contains(h) <==> old_hashes@.contains(h),
            r.shared == sum_where(new.lens@, is_old, r.total_chunks as int),
            r.fresh == sum_where(new.lens@, is_new, r.total_chunks as int),
            r.fresh_chunks == count_where(is_new, r.total_chunks as int),
            r.fresh_chunks <= r.total_chunks,
        decreases new.hashes.len() - r.total_chunks,
    {
        let h: u64 = new.hashes[r.total_chunks];
        let l: usize = new.lens[r.total_chunks];
        proof {
            lemma_sum_bounds(new.lens@, is_old, r.total_chunks + 1, all);
            lemma_sum_bounds(new.lens@, is_new, r.total_chunks + 1, all);
        }
        if known.contains(&h) {
            r.shared = r.shared + l;
        } else {
            r.fresh = r.fresh + l;
            r.fresh_chunks = r.fresh_chunks + 1;
        }
        r.total_chunks = r.total_chunks + 1;
    }
    r
}

/// Law: compared with itself, a version has nothing fresh.
pub proof fn lemma_compare_same(hashes: Seq<u64>, lens: Seq<usize>, r: Comparison)
    requires
        hashes.len() == lens.len(),
        is_comparison(hashes, hashes, lens, r),
    ensures
        r.fresh == 0,
        r.fresh_chunks == 0,
        r.shared == total(lens),
{
    let n = lens.len() as int;
    let is_new = |i: int| !hashes.contains(hashes[i]);
    let is_old = |i: int| hashes.contains(hashes[i]);
    lemma_where_equal(lens, is_new, |i: int| false, n);
    lemma_where_equal(lens, is_old, |i: int| true, n);
    lemma_none(lens, n);
}

pub proof fn lemma_none(lens: Seq<usize>, n: int)
    ensures
        sum_where(lens, |i: int| false, n) == 0,
        count_where(|i: int| false, n) == 0,
    decreases n,
{
    if n > 0 {
        lemma_none(lens, n - 1);
    }
}

/// Chunks both versions and compares them.
pub fn compare(order: ByteOrder, c: &Chunker, old_data: &[u8], new_data: &[u8]) -> (r: Comparison)
    requires
        c.wf(),
    ensures
        is_comparison(
            chunk_hashes_of(order, c@, old_data@),
            chunk_hashes_of(order, c@, new_data@),
            chunk_lens_of(c@, new_data@),
            r,
        ),
        r.shared + r.fresh == new_data@.len(),
        r.fresh_chunks <= r.total_chunks,
        old_data@ == new_data@ ==> r.fresh == 0 && r.fresh_chunks == 0,
{
    let old_hashes = chunk_hashes(order, c, old_data);
    let st = chunk_file(order, c, new_data);
    let r = compare_chunks(&old_hashes, &st);
    proof {
        if old_data@ == new_data@ {
            lemma_compare_same(st.hashes@, st.lens@, r);
        }
    }
    r
}

/// The length buckets of a histogram and what falls into them. The first bucket
/// holds the lengths up to the minimum; each other one spans a doubling, the
/// last of which ends at the maximum.
#[derive(Debug)]
pub struct Histogram {
    /// Where each bucket ends: the minimum, then its doublings, then the
    /// maximum.
    pub ends: Vec<usize>,
    /// How many lengths fall into each bucket.
    pub counts: Vec<usize>,
    /// How many lengths are the maximum.
    pub forced: usize,
}

/// `n` is the number of buckets between `min` and `max`: the doublings of `min`
/// reach `max` at the last one and not before.
pub open spec fn is_bucket_count(min: int, max: int, n: int) -> bool {
    &&& 1 <= n
    &&& max <= min * pow2((n - 1) as nat)
    &&& n > 1 ==> min * pow2((n - 2) as nat) < max
}

/// Where bucket `i` ends.
pub open spec fn bucket_end(min: int, max: int, i: int) -> int {
    let doubled = min * pow2(i as nat);
    if i > 0 && max < doubled {
        max
    } else {
        doubled
    }
}

/// A length of `l` falls into bucket `i` of `n`.
pub open spec fn falls_in(min: int, max: int, n: int, l: int, i: int) -> bool {
    if l <= min || n == 1 {
        i == 0
    } else {
        &&& 1 <= i < n
        &&& bucket_end(min, max, i - 1) < l
        &&& i == n - 1 || l <= bucket_end(min, max, i)
    }
}

/// The doublings of `min` up to `max` can be computed in `usize`.
pub open spec fn doublings_fit(min: int, max: int) -> bool {
    &&& 0 < min || max <= min
    &&& forall|k: nat| min * #[trigger] pow2(k) < max ==> 2 * (min * pow2(k)) <= usize::MAX
}

/// They can where `max` is at most half of the range.
pub proof fn lemma_doublings_fit(min: int, max: int)
    requires
        0 < min,
        max <= usize::MAX / 2 + 1,
    ensures
        doublings_fit(min, max),
{
}

pub proof fn lemma_doubling(min: int, k: nat)
    requires
        0 <= min,
    ensures
        min * pow2(k + 1) == 2 * (min * pow2(k)),
        0 <= min * pow2(k),
{
    lemma_pow2_unfold(k + 1);
    lemma_pow2_pos(k);
    let p = pow2(k) as int;
    assert(min * (2 * p) == 2 * (min * p) && 0 <= min * p) by (nonlinear_arith)
        requires
            0 <= min,
            0 < p,
    ;
}

/// Further doublings are no smaller.
pub proof fn lemma_doublings_grow(min: int, j: nat, k: nat)
    requires
        0 <= min,
        j <= k,
    ensures
        min * pow2(j) <= min * pow2(k),
    decreases k - j,
{
    if j < k {
        lemma_doublings_grow(min, j, (k - 1) as nat);
        lemma_doubling(min, (k - 1) as nat);
    }
}

/// Where the buckets end.
fn bucket_ends(min: usize, max: usize) -> (ends: Vec<usize>)
    requires
        doublings_fit(min as int, max as int),
    ensures
        is_bucket_count(min as int, max as int, ends.len() as int),
        forall|i: int|
            0 <= i < ends.len() ==> #[trigger] ends@[i] == bucket_end(min as int, max as int, i),
{
    let mut ends: Vec<usize> = Vec::new();
    ends.push(min);
    let mut lo: usize = min;
    let ghost mut k: nat = 0;
    proof {
        lemma2_to64();
    }
    while lo < max
        invariant
            doublings_fit(min as int, max as int),
            ends.len() == k + 1,
            lo < max ==> lo == min * pow2(k),
            lo >= max ==> max <= min * pow2(k),
            k > 0 ==> min * pow2((k - 1) as nat) < max,
            forall|i: int|
                0 <= i < ends.len() ==> #[trigger] ends@[i] == bucket_end(
                    min as int,
                    max as int,
                    i,
                ),
        decreases max - lo,
    {
        proof {
            lemma_doubling(min as int, k);
            if lo == 0 {
                assert(min > 0);
                lemma_doublings_grow(min as int, 0, k);
                lemma2_to64();
            }
        }
        let hi: usize = if lo * 2 < max {
            lo * 2
        } else {
            max
        };
        ends.push(hi);
        lo = hi;
        proof {
            k = k + 1;
        }
    }
    ends
}

/// The bucket that a length falls into.
fn bucket_of(l: usize, min: usize, max: usize, n: usize) -> (idx: usize)
    requires
        doublings_fit(min as int, max as int),
        is_bucket_count(min as int, max as int, n as int),
    ensures
        idx < n,
        falls_in(min as int, max as int, n as int, l as int, idx as int),
{
    if l <= min || n == 1 {
        return 0;
    }
    let top: usize = if l < max {
        l
    } else {
        max
    };
    let mut idx: usize = 1;
    let mut lo: usize = min;
    proof {
        lemma2_to64();
        lemma_doublings_grow(min as int, 0, (n - 2) as nat);
        lemma_doubling(min as int, 0);
    }
    while lo * 2 < top
        invariant
            doublings_fit(min as int, max as int),
            is_bucket_count(min as int, max as int, n as int),
            min < max,
            min < l,
            n > 1,
            top == (if l < max { l } else { max }),
            1 <= idx < n,
            lo == min * pow2((idx - 1) as nat),
            0 < lo < top,
            lo * 2 <= usize::MAX,
        decreases top - lo,
    {
        proof {
            lemma_doubling(min as int, (idx - 1) as nat);
            lemma_doubling(min as int, idx as nat);
        }
        lo = lo * 2;
        idx = idx + 1;
    }
    proof {
        lemma_doubling(min as int, (idx - 1) as nat);
        if idx < n - 1 {
            lemma_doublings_grow(min as int, idx as nat, (n - 2) as nat);
        }
    }
    idx
}

/// A length falls into exactly one bucket.
proof fn lemma_bucket_unique(min: int, max: int, n: int, l: int, i: int, j: int)
    requires
        0 <= min,
        is_bucket_count(min, max, n),
        falls_in(min, max, n, l, i),
        falls_in(min, max, n, l, j),
    ensures
        i == j,
{
    if i < j {
        lemma_doublings_grow(min, i as nat, (j - 1) as nat);
    } else if j < i {
        lemma_doublings_grow(min, j as nat, (i - 1) as nat);
    }
}

/// `counts` tells how many of `lens` fall into each of `n` buckets.
pub open spec fn is_tally(
    min: int,
    max: int,
    n: int,
    lens: Seq<usize>,
    counts: Seq<usize>,
) -> bool {
    &&& counts.len() == n
    &&& forall|i: int|
        0 <= i < n ==> #[trigger] counts[i] == count_where(
            |k: int| falls_in(min, max, n, lens[k] as int, i),
            lens.len() as int,
        )
}

/// The histogram of chunk lengths, from the minimum to the maximum in
/// doublings; what is no longer than the minimum, and what was cut by force,
/// is counted separately.
pub fn histogram(lens: &[usize], min: usize, max: usize) -> (r: Histogram)
    requires
        doublings_fit(min as int, max as int),
    ensures
        is_bucket_count(min as int, max as int, r.ends@.len() as int),
        forall|i: int|
            0 <= i < r.ends@.len() ==> #[trigger] r.ends@[i] == bucket_end(
                min as int,
                max as int,
                i,
            ),
        is_tally(min as int, max as int, r.ends@.len() as int, lens@, r.counts@),
        r.forced == count_where(|k: int| lens@[k] == max, lens@.len() as int),
{
    let ends = bucket_ends(min, max);
    let n: usize = ends.len();
    let mut counts: Vec<usize> = vec![0; n];
    let mut forced: usize = 0;
    let mut k: usize = 0;
    while k < lens.len()
        invariant
            doublings_fit(min as int, max as int),
            is_bucket_count(min as int, max as int, n as int),
            k <= lens.len(),
            counts.len() == n,
            forall|i: int|
                0 <= i < n ==> #[trigger] counts@[i] == count_where(
                    |j: int| falls_in(min as int, max as int, n as int, lens@[j] as int, i),
                    k as int,
                ),
            forall|i: int| 0 <= i < n ==> #[trigger] counts@[i] <= k,
            forced == count_where(|j: int| lens@[j] == max, k as int),
            forced <= k,
        decreases lens.len() - k,
    {
        let l: usize = lens[k];
        if l == max {
            forced = forced + 1;
        }
        let idx: usize = bucket_of(l, min, max, n);
        proof {
            assert forall|i: int|
                0 <= i < n implies falls_in(min as int, max as int, n as int, l as int, i) == (i
                == idx) by {
                if falls_in(min as int, max as int, n as int, l as int, i) {
                    lemma_bucket_unique(
                        min as int,
                        max as int,
                        n as int,
                        l as int,
                        i,
                        idx as int,
                    );
                }
            }
        }
        let count: usize = counts[idx];
        counts.set(idx, count + 1);
        k = k + 1;
    }
    Histogram { ends, counts, forced }
}

/// Some bucket from `i` on takes a length that is beyond the bucket before it.
proof fn lemma_bucket_exists(min: int, max: int, n: int, l: int, i: int) -> (b: int)
    requires
        min < l,
        1 <= i < n,
        bucket_end(min, max, i - 1) < l,
    ensures
        falls_in(min, max, n, l, b),
    decreases n - i,
{
    if i == n - 1 || l <= bucket_end(min, max, i) {
        i
    } else {
        lemma_bucket_exists(min, max, n, l, i + 1)
    }
}

/// How many of the first `m` lengths fall into the first `j` buckets.
spec fn tally_below(min: int, max: int, n: int, lens: Seq<usize>, m: int, j: int) -> int
    decreases j,
{
    if j <= 0 {
        0
    } else {
        tally_below(min, max, n, lens, m, j - 1) + count_where(
            |k: int| falls_in(min, max, n, lens[k] as int, j - 1),
            m,
        )
    }
}

proof fn lemma_tally_step(min: int, max: int, n: int, lens: Seq<usize>, m: int, j: int, b: int)
    requires
        0 <= min,
        is_bucket_count(min, max, n),
        0 < m <= lens.len(),
        0 <= j <= n,
        0 <= b < n,
        falls_in(min, max, n, lens[m - 1] as int, b),
    ensures
        tally_below(min, max, n, lens, m, j) == tally_below(min, max, n, lens, m - 1, j) + if b
            < j {
            1int
        } else {
            0
        },
    decreases j,
{
    if j > 0 {
        lemma_tally_step(min, max, n, lens, m, j - 1, b);
        if falls_in(min, max, n, lens[m - 1] as int, j - 1) {
            lemma_bucket_unique(min, max, n, lens[m - 1] as int, b, j - 1);
        }
    }
}

proof fn lemma_tally_all(min: int, max: int, n: int, lens: Seq<usize>, m: int, j: int)
    requires
        0 <= min,
        is_bucket_count(min, max, n),
        0 <= m <= lens.len(),
        0 <= j <= n,
        m == 0 || j == n,
    ensures
        tally_below(min, max, n, lens, m, j) == m,
    decreases m, j,
{
    if m > 0 {
        let l = lens[m - 1] as int;
        lemma2_to64();
        assert(min * pow2(0) == min);
        let b = if l <= min || n == 1 {
            0
        } else {
            lemma_bucket_exists(min, max, n, l, 1)
        };
        lemma_tally_all(min, max, n, lens, m - 1, j);
        lemma_tally_step(min, max, n, lens, m, j, b);
    } else if j > 0 {
        lemma_tally_all(min, max, n, lens, m, j - 1);
    }
}

proof fn lemma_tally_sum(
    min: int,
    max: int,
    n: int,
    lens: Seq<usize>,
    counts: Seq<usize>,
    j: int,
)
    requires
        is_tally(min, max, n, lens, counts),
        0 <= j <= n,
    ensures
        sum_where(counts, |i: int| true, j) == tally_below(
            min,
            max,
            n,
            lens,
            lens.len() as int,
            j,
        ),
    decreases j,
{
    if j > 0 {
        lemma_tally_sum(min, max, n, lens, counts, j - 1);
        assert(counts[j - 1] == count_where(
            |k: int| falls_in(min, max, n, lens[k] as int, j - 1),
            lens.len() as int,
        ));
    }
}

/// Law: the histogram counts every length once.
pub proof fn lemma_histogram_counts_all(
    min: int,
    max: int,
    n: int,
    lens: Seq<usize>,
    counts: Seq<usize>,
)
    requires
        0 <= min,
        is_bucket_count(min, max, n),
        is_tally(min, max, n, lens, counts),
    ensures
        total(counts) == lens.len(),
{
    lemma_tally_sum(min, max, n, lens, counts, n);
    lemma_tally_all(min, max, n, lens, lens.len() as int, n);
}

} // verus!
