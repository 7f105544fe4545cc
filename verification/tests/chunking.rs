//! Sizes, masks and the chunks of a slice.
use xg16::chunker::top16;
use xg16::table::entry;
use xg16::{Chunk, ChunkSink, Chunker, Feeder, StreamChunker, Xg16};

fn noise(len: usize, mut seed: u64) -> Vec<u8> {
    let mut v = Vec::with_capacity(len);
    for _ in 0..len {
        seed = seed
            .wrapping_mul(6364136223846793005)
            .wrapping_add(1442695040888963407);
        v.push((seed >> 56) as u8);
    }
    v
}

#[test]
fn top_bits_of_sixteen() {
    assert_eq!(top16(0), 0);
    assert_eq!(top16(1), 0x8000);
    assert_eq!(top16(11), 0xFFE0);
    assert_eq!(top16(15), 0xFFFE);
    assert_eq!(top16(16), 0xFFFF);
}

#[test]
fn sizes_that_are_taken() {
    assert!(Chunker::valid_sizes(2048, 8192, 65536));
    assert!(Chunker::valid_sizes(1, 2, 4));
    assert!(Chunker::valid_sizes(4096, 16384, 1 << 40));
    assert!(Chunker::valid_sizes(1, 2, 1 << 63));
    assert!(!Chunker::valid_sizes(0, 2, 4));
    assert!(!Chunker::valid_sizes(2048, 2048, 65536));
    assert!(!Chunker::valid_sizes(2048, 8192, 8192));
    assert!(!Chunker::valid_sizes(8192, 4096, 65536));
    assert!(!Chunker::valid_sizes(2047, 8192, 65536));
    assert!(!Chunker::valid_sizes(2048, 8193, 65536));
    assert!(!Chunker::valid_sizes(2048, 8192, 65537));
    assert!(!Chunker::valid_sizes(2048, 32768, 65536));
    assert!(!Chunker::valid_sizes(2048, 8192, usize::MAX));
}

#[test]
fn sizes_are_echoed() {
    let c = Chunker::with_default_sizes();
    assert_eq!((c.min_size(), c.avg_size(), c.max_size()), (2048, 8192, 65536));
    let c = Chunker::new(4096, 16384, 32768);
    assert_eq!((c.min_size(), c.avg_size(), c.max_size()), (4096, 16384, 32768));
    let x = Xg16::new(&[], 16, 64, 128);
    assert_eq!((x.min_size(), x.avg_size(), x.max_size()), (16, 64, 128));
    let f = Feeder::new(32, 64, 256);
    assert_eq!((f.min_size(), f.avg_size(), f.max_size()), (32, 64, 256));
}

#[test]
fn short_inputs_are_one_chunk() {
    let c = Chunker::new(16, 32, 64);
    let d = noise(17, 1);
    assert!(c.cut_points(&[]).is_empty());
    assert!(c.chunks(&[]).collect().is_empty());
    assert!(Xg16::new(&[], 16, 32, 64).collect().is_empty());
    for n in 1..=17 {
        // Bytes up to the minimum are not hashed.
        assert_eq!(c.cut_points(&d[..n]), vec![n]);
        if n <= 16 {
            assert_eq!(c.cut(&d[..n]), (n, 0));
        }
    }
    assert_eq!(c.next_cut(&[]), 0);
}

#[test]
fn chunk_views_agree() {
    let c = Chunker::new(64, 256, 1024);
    let d = noise(50_000, 2);
    let ends = c.cut_points(&d);
    let slices = c.chunks(&d).collect();
    let chunks = Xg16::new(&d, 64, 256, 1024).collect();
    assert_eq!(slices.concat(), d);
    assert_eq!(ends.len(), slices.len());
    assert_eq!(ends.len(), chunks.len());
    let mut off = 0;
    for i in 0..ends.len() {
        assert_eq!(chunks[i].offset, off);
        assert_eq!(chunks[i].length, slices[i].len());
        assert_eq!(c.cut(&d[off..]), (chunks[i].length, chunks[i].hash));
        assert_eq!(c.next_cut(&d[off..]), chunks[i].length);
        off += chunks[i].length;
        assert_eq!(ends[i], off);
    }
}

#[test]
fn items_come_one_by_one() {
    let d = noise(5_000, 3);
    let all = Xg16::new(&d, 64, 256, 1024).collect();
    let mut it = Xg16::new(&d, 64, 256, 1024);
    let mut chunks = Chunker::new(64, 256, 1024).chunks(&d);
    for c in &all {
        assert_eq!(it.next(), Some(*c));
        assert_eq!(chunks.next(), Some(&d[c.offset..c.offset + c.length]));
    }
    assert_eq!(it.next(), None);
    assert_eq!(it.next(), None);
    assert_eq!(chunks.next(), None);
    assert_eq!(chunks.next(), None);
}

#[test]
fn a_supplied_kernel_decides() {
    let c = Chunker::new(16, 32, 64);
    let d = [0u8; 100];
    // The first search runs from the minimum to the average under the hard
    // mask, the second from there to the maximum under the easy one.
    let never = |d: &[u8], h: u64, _m: u64| (None, h + d.len() as u64);
    assert_eq!(c.cut_with(&d, never), (64, 48));
    assert_eq!(c.cut_with(&d[..20], never), (20, 4));
    assert_eq!(c.cut_with(&d[..16], never), (16, 0));
    let first = |_d: &[u8], _h: u64, m: u64| (Some(3), m);
    assert_eq!(c.cut_with(&d, first), (19, 0xFE00));
    let second = |_d: &[u8], h: u64, m: u64| {
        if m == 0xFE00 {
            (None, 9)
        } else {
            (Some(5), h + m)
        }
    };
    assert_eq!(c.cut_with(&d, second), (37, 0xE000 + 9));
    assert_eq!(c.next_cut_with(&d, second), 37);
}

#[test]
fn equal_tails_are_cut_alike() {
    let t = noise(20_000, 4);
    let c = Chunker::new(64, 256, 1024);
    let mut a = noise(3_000, 5);
    let mut b = noise(777, 6);
    // Let both prefixes end at a cut of their own.
    let cut_a = c.cut_points(&a)[3];
    let cut_b = c.cut_points(&b)[0];
    a.truncate(cut_a);
    b.truncate(cut_b);
    let (na, nb) = (a.len(), b.len());
    a.extend_from_slice(&t);
    b.extend_from_slice(&t);
    let ends_a = c.cut_points(&a);
    let ends_b = c.cut_points(&b);
    let i = ends_a.iter().position(|e| *e == na).unwrap();
    let j = ends_b.iter().position(|e| *e == nb).unwrap();
    let tail_a: Vec<usize> = ends_a[i + 1..].iter().map(|e| e - na).collect();
    let tail_b: Vec<usize> = ends_b[j + 1..].iter().map(|e| e - nb).collect();
    assert_eq!(tail_a, tail_b);
    assert_eq!(tail_a, c.cut_points(&t));
}

#[test]
fn feeder_matches_slice_chunking() {
    let d = noise(40_000, 7);
    let expected: Vec<(Chunk, Vec<u8>)> = Xg16::new(&d, 64, 256, 1024)
        .collect()
        .into_iter()
        .map(|c| (c, d[c.offset..c.offset + c.length].to_vec()))
        .collect();
    for piece in [1usize, 7, 1023, 1024, 1025, 9999, 40_000] {
        let mut out: Vec<(Chunk, Vec<u8>)> = Vec::new();
        let mut f = Feeder::new(64, 256, 1024);
        for p in d.chunks(piece) {
            f.push(p, &mut out);
        }
        f.finish(&mut out);
        assert_eq!(out, expected);
    }
}

#[test]
fn empty_pushes_change_nothing() {
    let d = noise(5_000, 8);
    let mut out: Vec<Vec<u8>> = Vec::new();
    let mut s = StreamChunker::new(Chunker::new(64, 256, 1024));
    s.push(&[], &mut out);
    assert!(out.is_empty());
    for p in d.chunks(100) {
        s.push(p, &mut out);
        let before = out.len();
        s.push(&[], &mut out);
        assert_eq!(out.len(), before);
    }
    s.finish(&mut out);
    assert_eq!(out.concat(), d);

    let mut none: Vec<(Chunk, Vec<u8>)> = Vec::new();
    Feeder::new(64, 256, 1024).finish(&mut none);
    assert!(none.is_empty());
}

#[test]
fn less_than_the_maximum_stays_pending() {
    let d = noise(4_096, 9);
    let mut out: Vec<Vec<u8>> = Vec::new();
    let mut s = StreamChunker::new(Chunker::new(64, 256, 1024));
    let mut fed = 0;
    for p in d.chunks(50) {
        s.push(p, &mut out);
        fed += p.len();
        let emitted: usize = out.iter().map(|c| c.len()).sum();
        assert!(fed - emitted < 1024);
    }
}

#[test]
fn sinks_keep_what_they_take() {
    let mut v: Vec<(Chunk, Vec<u8>)> = Vec::new();
    let c = Chunk {
        hash: 1,
        offset: 2,
        length: 3,
    };
    v.emit(c, b"abc");
    assert_eq!(v, vec![(c, b"abc".to_vec())]);
}

#[test]
fn bytes_below_the_minimum_do_not_move_the_cut() {
    let c = Chunker::new(64, 256, 1024);
    let a = noise(2_000, 10);
    let mut b = a.clone();
    for x in &mut b[..64] {
        *x ^= 0x5A;
    }
    assert_eq!(c.cut(&a), c.cut(&b));
    assert!(c.cut(&a).0 > 64);
}

#[test]
fn an_edit_leaves_earlier_chunks_alone() {
    let c = Chunker::new(64, 256, 1024);
    let a = noise(30_000, 11);
    let at = 20_000;
    let mut b = a[..at].to_vec();
    b.extend_from_slice(b"inserted");
    b.extend_from_slice(&a[at..]);
    let ends_a = c.cut_points(&a);
    let ends_b = c.cut_points(&b);
    let mut start = 0;
    for (i, e) in ends_a.iter().enumerate() {
        if start + 1024 > at {
            break;
        }
        assert_eq!(*e, ends_b[i]);
        start = *e;
    }
    assert!(start > 0);
}

#[test]
fn constant_data_is_cut_periodically() {
    let c = Chunker::new(64, 256, 1024);
    for byte in 0..=255u8 {
        let lens: Vec<usize> = c
            .chunks(&vec![byte; 10_000])
            .collect()
            .iter()
            .map(|s| s.len())
            .collect();
        assert!(lens[..lens.len() - 1].iter().all(|l| *l == lens[0]));
    }
}

#[test]
fn pushes_emit_what_has_the_maximum_ahead() {
    let c = Chunker::new(64, 256, 1024);
    let d = noise(6_000, 12);
    let mut out: Vec<Vec<u8>> = Vec::new();
    let mut s = StreamChunker::new(c);
    let mut fed = 0;
    for p in d.chunks(333) {
        s.push(p, &mut out);
        fed += p.len();
        let mut start = 0;
        let mut expected: Vec<Vec<u8>> = Vec::new();
        for ch in c.chunks(&d[..fed]).collect() {
            if start + c.max_size() <= fed {
                expected.push(ch.to_vec());
            }
            start += ch.len();
        }
        assert_eq!(out, expected);
    }
}

#[test]
fn a_split_push_emits_the_same() {
    let d = noise(5_000, 13);
    for at in [0usize, 1, 700, 1024, 2_500, 4_999, 5_000] {
        let mut one: Vec<Vec<u8>> = Vec::new();
        let mut two: Vec<Vec<u8>> = Vec::new();
        let mut s = StreamChunker::new(Chunker::new(64, 256, 1024));
        let mut t = StreamChunker::new(Chunker::new(64, 256, 1024));
        s.push(&d, &mut one);
        t.push(&d[..at], &mut two);
        t.push(&d[at..], &mut two);
        assert_eq!(one, two);
        s.finish(&mut one);
        t.finish(&mut two);
        assert_eq!(one, two);
    }
}

#[test]
fn no_chunk_runs_past_a_strong_boundary() {
    let c = Chunker::new(64, 256, 1024);
    let hard = top16(10);
    let d = noise(60_000, 14);
    let mut at_end = 0;
    for ch in Xg16::new(&d, 64, 256, 1024).collect() {
        let end = ch.offset + ch.length;
        for k in ch.offset + c.min_size() + 16..=end {
            let state = d[k - 16..k]
                .iter()
                .fold(0u16, |h, b| (h << 1) ^ entry(*b));
            if state as u64 & hard == 0 {
                assert_eq!(k, end);
                at_end += 1;
            }
        }
    }
    assert!(at_end > 0);
}

#[test]
fn constant_data_need_not_resync() {
    // Without a boundary in the content every cut is forced, and an insert
    // shifts all of them.
    let c = Chunker::new(64, 256, 1024);
    let zeros = vec![0u8; 64 * 1024];
    let mut edited = zeros.clone();
    edited.insert(8 * 1024, 0x5A);
    let before = c.cut_points(&zeros);
    let after = c.cut_points(&edited);
    let common = after
        .iter()
        .filter(|p| **p > 8 * 1024 && **p < edited.len())
        .filter(|p| before.contains(&(**p - 1)))
        .count();
    assert_eq!(common, 0);
}

#[test]
fn a_search_of_narrow_states_is_taken() {
    // Past the average, the search is handed the state that it answered with.
    let c = Chunker::new(16, 32, 64);
    let narrow = |d: &[u8], h: u64, _m: u64| {
        assert!(h <= 0xFFFF);
        (None, (h + d.len() as u64) & 0xFFFF)
    };
    assert_eq!(c.cut_with(&[0u8; 80], narrow), (64, 48));
}

#[test]
fn a_cut_depends_on_the_bytes_up_to_it() {
    let c = Chunker::new(64, 256, 1024);
    let a = noise(4_000, 15);
    let (len, hash) = c.cut(&a);
    for tail in [0usize, 1, 500, 3_000] {
        let mut b = a[..len].to_vec();
        b.extend_from_slice(&noise(tail, 16));
        assert_eq!(c.cut(&b), (len, hash));
    }
}

#[test]
fn the_last_chunk_of_constant_data_is_no_longer() {
    let c = Chunker::new(64, 256, 1024);
    for byte in 0..=255u8 {
        for n in [1usize, 64, 65, 500, 1024, 1025, 5_000] {
            let lens: Vec<usize> = c
                .chunks(&vec![byte; n])
                .collect()
                .iter()
                .map(|s| s.len())
                .collect();
            assert!(lens.iter().all(|l| *l <= lens[0]));
        }
    }
}

#[test]
fn an_insert_resyncs_at_a_strong_boundary() {
    let c = Chunker::new(64, 256, 1024);
    let hard = top16(10) as u16;
    let old = noise(40_000, 17);
    let at = 10_000;
    let ins = noise(37, 18);
    let mut new = old[..at].to_vec();
    new.extend_from_slice(&ins);
    new.extend_from_slice(&old[at..]);
    let before = c.cut_points(&old);
    let after = c.cut_points(&new);
    // Where the chunk that reaches position `k` begins.
    let begin = |ends: &[usize], k: usize| -> usize {
        ends.iter().copied().filter(|e| *e < k).max().unwrap_or(0)
    };
    let boundary = (at + 16..old.len()).find(|k| {
        let state = old[*k - 16..*k]
            .iter()
            .fold(0u16, |h, b| (h << 1) ^ entry(*b));
        state & hard == 0
            && begin(&before, *k) + 80 <= *k
            && begin(&after, *k + ins.len()) + 80 <= *k + ins.len()
    });
    let k = boundary.unwrap();
    assert!(before.contains(&k));
    assert!(after.contains(&(k + ins.len())));
    let moved: Vec<usize> = before
        .iter()
        .filter(|e| **e >= k)
        .map(|e| e + ins.len())
        .collect();
    let rest: Vec<usize> = after
        .iter()
        .copied()
        .filter(|e| *e >= k + ins.len())
        .collect();
    assert_eq!(moved, rest);
}
