//! Golden cuts: the format made executable. Hashes are pinned too, since a
//! kernel with correct cuts and a wrong carried state would go wrong later.
use xg16::scan::{kernels, scan, scan_ref, ScanFn};
use xg16::table::{entry, gen_t, gen_tables, A_HI, A_LO, B_HI, B_LO};
use xg16::{Chunk, Config, Xg16, FORMAT_ID};

fn splitmix_fill(buf: &mut Vec<u8>, len: usize, mut seed: u64) {
    let end = buf.len() + len;
    while buf.len() + 8 <= end {
        seed = seed.wrapping_add(0x9E3779B97F4A7C15);
        let mut z = seed;
        z = (z ^ (z >> 30)).wrapping_mul(0xBF58476D1CE4E5B9);
        z = (z ^ (z >> 27)).wrapping_mul(0x94D049BB133111EB);
        z ^= z >> 31;
        buf.extend_from_slice(&z.to_le_bytes());
    }
    while buf.len() < end {
        seed = seed.wrapping_add(1);
        buf.push(seed as u8);
    }
}

fn random(len: usize, seed: u64) -> Vec<u8> {
    let mut v = Vec::new();
    splitmix_fill(&mut v, len, seed);
    v
}

fn corpus() -> Vec<u8> {
    let mut v = Vec::new();
    splitmix_fill(&mut v, 512 * 1024, 0xC0A7);
    let mut i = 0u64;
    let text_start = v.len();
    while v.len() - text_start < 256 * 1024 {
        v.extend_from_slice(
            format!(
                "[fixture] line {i} of structured ascii content, id={:08x}\n",
                i * 2654435761
            )
            .as_bytes(),
        );
        i += 1;
    }
    v.extend_from_slice(&vec![0u8; 96 * 1024]);
    splitmix_fill(&mut v, 300 * 1024, 0xB1);
    v.extend_from_slice(&vec![0xAAu8; 40 * 1024]);
    splitmix_fill(&mut v, 200 * 1024, 0xB2);
    splitmix_fill(&mut v, 12_345, 0xB3);
    v
}

/// FNV-1a over the lines `offset length hash`.
fn fingerprint(lines: &[String]) -> u64 {
    let mut x: u64 = 0xcbf29ce484222325;
    for line in lines {
        for b in line.bytes().chain([b'\n']) {
            x = (x ^ b as u64).wrapping_mul(0x100000001b3);
        }
    }
    x
}

#[test]
fn golden_cuts_match_all_kernels() {
    let corpus = corpus();
    assert_eq!(corpus.len(), 1_450_088);
    let sets: [(usize, usize, usize, usize, u64); 3] = [
        (2048, 8192, 65536, 131, 0x53f0198e381e60c7),
        (4096, 8192, 65536, 127, 0x6981ec0403e1fc28),
        (4096, 16384, 65536, 69, 0x348892e978f57857),
    ];
    for (min, avg, max, count, print) in sets {
        let lines: Vec<String> = Xg16::new(&corpus, min, avg, max)
            .collect()
            .iter()
            .map(|c| format!("{} {} {:04x}", c.offset, c.length, c.hash))
            .collect();
        assert_eq!(lines.len(), count);
        assert_eq!(fingerprint(&lines), print);

        let config = Config::new(min, avg, max);
        for (name, k) in kernels(true) {
            let mut got = Vec::new();
            let mut off = 0;
            while off < corpus.len() {
                let (len, hash) =
                    config.cut_with(&corpus[off..], |d: &[u8], h: u64, m: u64| k.scan(d, h, m));
                got.push(format!("{off} {len} {hash:04x}"));
                off += len;
            }
            assert_eq!(got, lines, "kernel {name} diverged");
        }
    }
}

#[test]
fn golden_chunks_of_small_sizes() {
    let data: Vec<u8> = (0..4u32).flat_map(|_| 0..=255u8).collect();
    let expected: [(usize, usize, u64); 9] = [
        (0, 131, 842),
        (131, 70, 104),
        (201, 150, 808),
        (351, 143, 1015),
        (494, 149, 842),
        (643, 70, 104),
        (713, 150, 808),
        (863, 143, 1015),
        (1006, 18, 0),
    ];
    let chunks = Xg16::new(&data, 64, 128, 256).collect();
    let expected: Vec<Chunk> = expected
        .iter()
        .map(|&(offset, length, hash)| Chunk {
            hash,
            offset,
            length,
        })
        .collect();
    assert_eq!(chunks, expected);

    let lens: Vec<(usize, u64)> = Xg16::new(&random(300, 5), 16, 32, 64)
        .collect()
        .iter()
        .map(|c| (c.length, c.hash))
        .collect();
    assert_eq!(
        lens,
        vec![
            (50, 5811),
            (41, 2632),
            (35, 2323),
            (34, 952),
            (44, 2833),
            (38, 5188),
            (33, 5835),
            (25, 42979)
        ]
    );
}

#[test]
fn smallest_sizes_cut_every_three_bytes() {
    // An average of two leaves no bits for the easy mask, so every byte past
    // the average is a boundary.
    let chunks = Xg16::new(&random(100, 1), 1, 2, 4).collect();
    assert_eq!(chunks.len(), 34);
    assert_eq!((chunks[0].length, chunks[0].hash), (3, 4576));
    assert_eq!((chunks[1].length, chunks[1].hash), (3, 44289));
    assert_eq!((chunks[33].offset, chunks[33].length), (99, 1));
    assert_eq!(chunks[33].hash, 0);
}

#[test]
fn golden_constant_runs() {
    let zeros = Xg16::new(&[0u8; 200_000], 2048, 8192, 65536).collect();
    let got: Vec<(usize, u64)> = zeros.iter().map(|c| (c.length, c.hash)).collect();
    assert_eq!(
        got,
        vec![(65536, 31298), (65536, 31298), (65536, 31298), (3392, 31298)]
    );
    let sevens = Xg16::new(&[7u8; 100_000], 2048, 8192, 65536).collect();
    let got: Vec<(usize, u64)> = sevens.iter().map(|c| (c.length, c.hash)).collect();
    assert_eq!(got, vec![(65536, 53087), (34464, 53087)]);
}

#[test]
fn golden_scans() {
    let d = random(200, 9);
    for (name, k) in kernels(true) {
        assert_eq!(k.scan(&d, 0, 0xFFC0), (None, 63283), "{name}");
        assert_eq!(k.scan(&d, 0x1234, 0xF800), (Some(72), 1180), "{name}");
        // Of the state and the mask the low 16 bits count.
        assert_eq!(k.scan(&d, 0xABCD_0001, 0xFF00), (Some(98), 189), "{name}");
        assert_eq!(
            k.scan(&d, 1, 0xFFFF_0000_FF00),
            (Some(98), 189),
            "{name}"
        );
        assert_eq!(k.scan(&d, 5, 0), (Some(1), 7443), "{name}");
        assert_eq!(k.scan(&[], 0xF_1234, 0xFFFF), (None, 0x1234), "{name}");
        assert_eq!(k.scan(b"hello", 0, 0xFFFF), (None, 0xbc7a), "{name}");
    }
    assert_eq!(scan(&d, 0x1234, 0xF800), (Some(72), 1180));
}

#[test]
fn kernels_agree_on_every_short_length() {
    let d = random(200, 77);
    for n in 0..d.len() {
        for (h, m) in [(0u64, 0xFFC0u64), (0x8001, 0xF000), (7, 0xFFFF), (0xFFFF, 0x8000)] {
            let expected = scan_ref(&d[..n], h, m);
            for (name, k) in kernels(true) {
                assert_eq!(k.scan(&d[..n], h, m), expected, "{name} at length {n}");
            }
        }
    }
}

#[test]
fn kernels_are_named_with_the_reference_first() {
    let names = |avx2: bool| -> Vec<&str> { kernels(avx2).iter().map(|k| k.0).collect() };
    assert_eq!(names(true), vec!["ref", "portable", "avx2"]);
    assert_eq!(names(false), vec!["ref", "portable"]);
    let fns: Vec<ScanFn> = kernels(true).iter().map(|k| k.1).collect();
    assert_eq!(
        fns,
        vec![ScanFn::Reference, ScanFn::Portable, ScanFn::Avx2]
    );
}

#[test]
fn tables_follow_from_the_seed() {
    assert_eq!(gen_tables(), (A_LO, A_HI, B_LO, B_HI));
    let t = gen_t();
    assert_eq!(t[0], 0x8ec6);
    assert_eq!(t[1], 0xac7a);
    assert_eq!(t[0x61], 0x721b);
    assert_eq!(t[0xff], 0x5174);
    for b in 0..=255u8 {
        assert_eq!(entry(b), t[b as usize]);
        let a = A_LO[b as usize & 15] as u16 | (A_HI[b as usize & 15] as u16) << 8;
        let c = B_LO[b as usize >> 4] as u16 | (B_HI[b as usize >> 4] as u16) << 8;
        assert_eq!(t[b as usize], a ^ c);
    }
}

#[test]
fn state_depends_on_sixteen_bytes() {
    let window = random(16, 4);
    for prefix in [0usize, 1, 5, 31, 64] {
        let mut d = random(prefix, prefix as u64 + 100);
        d.extend_from_slice(&window);
        for h in [0u64, 1, 0xFFFF] {
            assert_eq!(scan_ref(&d, h, 0xFFFF).1, scan_ref(&window, 0, 0xFFFF).1);
        }
    }
}

#[test]
fn a_wider_state_truncates_to_the_same_values() {
    let t = gen_t();
    let d = random(300, 8);
    let mut wide: u64 = 0xDEAD_BEEF;
    let mut narrow: u16 = wide as u16;
    for b in &d {
        wide = (wide << 1) ^ (t[*b as usize] as u64 | (*b as u64) << 40);
        narrow = (narrow << 1) ^ t[*b as usize];
        assert_eq!(wide as u16, narrow);
    }
}

#[test]
fn search_can_be_split_anywhere() {
    let d = random(150, 21);
    let mask = 0xFE00;
    let whole = scan_ref(&d, 3, mask);
    for at in 0..=d.len() {
        let split = match scan_ref(&d[..at], 3, mask) {
            (Some(k), h) => (Some(k), h),
            (None, h) => match scan_ref(&d[at..], h, mask) {
                (Some(k), g) => (Some(at + k), g),
                (None, g) => (None, g),
            },
        };
        assert_eq!(split, whole);
    }
}

#[test]
fn format_is_named() {
    assert_eq!(FORMAT_ID, "xg16-1");
}
