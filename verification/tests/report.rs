//! The figures of a chunking report.
use std::collections::hash_map::DefaultHasher;
use std::collections::HashSet;
use std::hash::{Hash, Hasher};

use xg16::report::{
    chunk_file, chunk_hash, chunk_hashes, chunk_lens, compare, compare_chunks, extremes, histogram,
    repeated_bytes, ByteOrder, Comparison, Corpus, FileStats,
};
use xg16::Chunker;

fn bytes_of(len: usize, mut seed: u64) -> Vec<u8> {
    let mut v = Vec::with_capacity(len);
    for _ in 0..len {
        seed = seed
            .wrapping_mul(6364136223846793005)
            .wrapping_add(1442695040888963407);
        v.push((seed >> 56) as u8);
    }
    v
}

/// The byte order of this machine.
fn native() -> ByteOrder {
    if u16::from_ne_bytes([0, 1]) == 1 {
        ByteOrder::Big
    } else {
        ByteOrder::Little
    }
}

fn stats(hashes: &[u64], lens: &[usize]) -> FileStats {
    FileStats {
        bytes: lens.iter().sum(),
        lens: lens.to_vec(),
        hashes: hashes.to_vec(),
    }
}

#[test]
fn chunk_hash_is_that_of_the_bytes() {
    for n in [0usize, 1, 7, 8, 9, 1000] {
        let d = bytes_of(n, n as u64);
        let mut h = DefaultHasher::new();
        d[..].hash(&mut h);
        assert_eq!(chunk_hash(native(), &d), h.finish());
    }
    assert_ne!(chunk_hash(native(), b"a"), chunk_hash(native(), b"b"));
    assert_ne!(chunk_hash(native(), b""), chunk_hash(native(), b"\0"));
}

#[test]
fn chunk_hash_follows_the_byte_order() {
    let d = b"seven!!";
    let mut little = DefaultHasher::new();
    little.write(&d.len().to_le_bytes());
    little.write(d);
    assert_eq!(chunk_hash(ByteOrder::Little, d), little.finish());
    let mut big = DefaultHasher::new();
    big.write(&d.len().to_be_bytes());
    big.write(d);
    assert_eq!(chunk_hash(ByteOrder::Big, d), big.finish());
    assert_ne!(little.finish(), big.finish());
}

#[test]
fn stats_of_a_file() {
    let c = Chunker::new(64, 256, 1024);
    let d = bytes_of(30_000, 1);
    let chunks = c.chunks(&d).collect();
    let lens: Vec<usize> = chunks.iter().map(|s| s.len()).collect();
    let hashes: Vec<u64> = chunks.iter().map(|s| chunk_hash(native(), s)).collect();
    let st = chunk_file(native(), &c, &d);
    assert_eq!(st.bytes, d.len());
    assert_eq!(st.lens, lens);
    assert_eq!(st.hashes, hashes);
    assert_eq!(chunk_lens(&c, &d), lens);
    assert_eq!(chunk_hashes(native(), &c, &d), hashes);
    assert_eq!(lens.iter().sum::<usize>(), d.len());

    let st = chunk_file(native(), &c, &[]);
    assert_eq!((st.bytes, st.lens.len(), st.hashes.len()), (0, 0, 0));
}

#[test]
fn extremes_of_lengths() {
    assert_eq!(extremes(&[]), (0, 0));
    assert_eq!(extremes(&[5]), (5, 5));
    assert_eq!(extremes(&[7, 3, 9, 3]), (3, 9));
}

#[test]
fn repeated_chunks_are_counted_from_the_second_on() {
    assert_eq!(repeated_bytes(&stats(&[], &[])), 0);
    assert_eq!(repeated_bytes(&stats(&[1, 2, 3], &[10, 20, 30])), 0);
    assert_eq!(repeated_bytes(&stats(&[1, 2, 1, 1], &[10, 20, 10, 10])), 20);
    let c = Chunker::new(64, 256, 1024);
    let d = vec![0u8; 4 * 1024];
    assert_eq!(repeated_bytes(&chunk_file(native(), &c, &d)), 3 * 1024);
}

#[test]
fn corpus_stores_each_chunk_once() {
    let mut corpus = Corpus::new();
    assert_eq!(corpus.total_bytes(), 0);
    assert_eq!(corpus.unique_chunks(), 0);
    corpus.absorb(&stats(&[1, 2, 1], &[10, 20, 10]));
    assert_eq!(corpus.total_bytes(), 40);
    assert_eq!(corpus.total_chunks(), 3);
    assert_eq!(corpus.stored_bytes(), 30);
    assert_eq!(corpus.unique_chunks(), 2);
    assert_eq!(corpus.deduped_bytes(), 10);
    corpus.absorb(&stats(&[2, 3], &[20, 5]));
    assert_eq!(corpus.total_bytes(), 65);
    assert_eq!(corpus.total_chunks(), 5);
    assert_eq!(corpus.stored_bytes(), 35);
    assert_eq!(corpus.unique_chunks(), 3);
    assert_eq!(corpus.deduped_bytes(), 30);
}

#[test]
fn corpus_of_one_file_stores_what_does_not_repeat() {
    let c = Chunker::new(64, 256, 1024);
    let mut d = bytes_of(20_000, 3);
    d.extend_from_slice(&[9u8; 8192]);
    let st = chunk_file(native(), &c, &d);
    let mut corpus = Corpus::new();
    corpus.absorb(&st);
    assert_eq!(corpus.stored_bytes() + repeated_bytes(&st), st.bytes);
    let distinct: HashSet<u64> = st.hashes.iter().copied().collect();
    assert_eq!(corpus.unique_chunks(), distinct.len());
}

#[test]
fn comparison_of_chunk_lists() {
    let new = stats(&[1, 5, 2, 5], &[10, 7, 20, 7]);
    assert_eq!(
        compare_chunks(&[2, 1, 9, 1], &new),
        Comparison {
            shared: 30,
            fresh: 14,
            fresh_chunks: 2,
            total_chunks: 4
        }
    );
    assert_eq!(
        compare_chunks(&[], &new),
        Comparison {
            shared: 0,
            fresh: 44,
            fresh_chunks: 4,
            total_chunks: 4
        }
    );
}

#[test]
fn comparison_of_versions() {
    let c = Chunker::new(64, 256, 1024);
    let old = bytes_of(100_000, 4);
    let same = compare(native(), &c, &old, &old);
    assert_eq!((same.shared, same.fresh, same.fresh_chunks), (old.len(), 0, 0));

    let mut new = old[..50_000].to_vec();
    new.extend_from_slice(b"odd");
    new.extend_from_slice(&old[50_000..]);
    let r = compare(native(), &c, &old, &new);
    assert_eq!(r.shared + r.fresh, new.len());
    assert!(r.fresh_chunks >= 1 && r.fresh < 8 * 1024);
    assert_eq!(r.total_chunks, c.cut_points(&new).len());

    let nothing = compare(native(), &c, &[], &new);
    assert_eq!((nothing.shared, nothing.fresh), (0, new.len()));
    let empty = compare(native(), &c, &old, &[]);
    assert_eq!((empty.shared, empty.fresh, empty.total_chunks), (0, 0, 0));
}

#[test]
fn histogram_of_lengths() {
    let h = histogram(&[1, 64, 65, 128, 129, 256, 257, 1000, 1024, 1024], 64, 1024);
    assert_eq!(h.ends, vec![64, 128, 256, 512, 1024]);
    assert_eq!(h.counts, vec![2, 2, 2, 1, 3]);
    assert_eq!(h.forced, 2);
    assert_eq!(h.counts.iter().sum::<usize>(), 10);
}

#[test]
fn histogram_edges() {
    // The last bucket ends at the maximum and takes whatever is longer.
    let h = histogram(&[200, 300, 5000], 100, 300);
    assert_eq!(h.ends, vec![100, 200, 300]);
    assert_eq!(h.counts, vec![0, 1, 2]);
    assert_eq!(h.forced, 1);
    // No bucket beside the first where the minimum is the maximum.
    let h = histogram(&[5, 10, 11], 10, 10);
    assert_eq!((h.ends, h.counts, h.forced), (vec![10], vec![3], 1));
    let h = histogram(&[], 64, 128);
    assert_eq!((h.ends, h.counts, h.forced), (vec![64, 128], vec![0, 0], 0));
    let h = histogram(&[1 << 62, 1 << 63], 1, 1 << 63);
    assert_eq!(h.ends.len(), 64);
    assert_eq!((h.counts[62], h.counts[63], h.forced), (1, 1, 1));
}
