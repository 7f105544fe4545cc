# xg16

Content-defined chunking with byte-granular cuts, verified with Verus.

The rolling state is 16 bits, updated per byte:

    h = ((h << 1) ^ T[b]) & 0xFFFF
    cut after this byte  iff  h & mask == 0

where `T[b] = A[b & 15] ^ B[b >> 4]` for two fixed 16-entry tables. Sizing is
normalized: no cut before `min_size` (those bytes are not hashed), a mask two
bits stricter than the average requires up to `avg_size`, two bits looser from
there to `max_size`, and a forced cut at `max_size` or the end of the input.
Sizes are powers of two with `min < avg < max` and `avg_size <= 16 KiB`.

## Layout

- `src/table.rs`, `src/rolling.rs`, `src/sizing.rs`, `src/streaming.rs`: the
  format as mathematics. What a cut is, which chunks an input has, and which of
  them a stream can settle.
- `src/partition.rs`: laws of the chunks of an input. They partition it, their
  lengths are bounded, they depend on content and not on position, an edit
  leaves the cuts before it in place, and two inputs with a common tail resync.
- `src/scan/`: the boundary-search kernels. Every kernel is proved to return
  what the format defines, the blocked ones through one shared driver.
- `src/chunker.rs`, `src/slice.rs`: chunking of slices.
- `src/pending.rs`, `src/stream.rs`, `src/feeder.rs`: chunking of input that
  arrives in pieces.
- `src/report.rs`, `src/size_text.rs`: the figures of a chunking report, and
  sizes as text.
- `app/`: the `xg16` program and an adapter for blocking readers.

Completed chunks go to a sink (`ByteSink`, `ChunkSink`), which `Vec` implements.

    let mut out: Vec<(Chunk, Vec<u8>)> = Vec::new();
    let mut f = Feeder::new(2048, 8192, 65536);
    f.push(&piece, &mut out);
    f.finish(&mut out);

Nothing is taken on trust beyond what `vstd` states of the standard library.
