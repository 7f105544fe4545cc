//! # xg16: content-defined chunking with byte-granular cuts
//!
//! A rolling-hash chunker: the boundary check runs at every byte position, so
//! cuts land on the byte grid and streams resync after edits of any length.
//!
//! ## The format
//!
//! Per input byte `b`:
//!
//! ```text
//! h = ((h << 1) ^ T[b]) & 0xFFFF            16-bit xor-gear
//! boundary at this byte  iff  h & mask == 0  mask = top bits of 16
//! ```
//!
//! with `T[b] = A[b & 15] ^ B[b >> 4]` for two 16-entry u16 tables. Chunk
//! sizing is normalized: no cuts before `min_size` (bytes there are never
//! hashed), a hard mask (two bits more) up to `avg_size`, an easy mask (two
//! bits less) up to `max_size`, a forced cut at `max_size` or the end of the
//! input.
//!
//! ## Layout
//!
//! The format itself is stated as mathematics in [`table`], [`rolling`],
//! [`sizing`] and [`streaming`], with the laws that hold of it. [`scan`] holds
//! the boundary-search kernels, [`chunker`], [`slice`], [`stream`] and
//! [`feeder`] the chunkers (the last two over [`pending`]), [`report`] the
//! figures that a chunking report is made of, and [`size_text`] the reading of
//! sizes. [`partition`] holds the laws of the chunks of an input; [`laws`] and
//! [`report_laws`] say of each operation what its result is in terms of its
//! inputs.
use vstd::prelude::*;

pub mod chunker;
pub mod feeder;
pub mod laws;
pub mod partition;
pub mod pending;
pub mod report;
pub mod report_laws;
pub mod rolling;
pub mod scan;
pub mod sizing;
pub mod size_text;
pub mod slice;
pub mod stream;
pub mod streaming;
pub mod table;

pub use chunker::{Chunker, Chunks};
pub use feeder::{ChunkSink, Feeder};
pub use slice::{Chunk, Xg16};
pub use stream::{ByteSink, StreamChunker};

verus! {

/// Names the format: the seed of the tables, the width of the state, the update
/// rule and the construction of the masks. Whoever stores cut positions records
/// it beside the sizes.
pub const FORMAT_ID: &'static str = "xg16-1";

/// The configuration of a chunker.
pub type Config = Chunker;

} // verus!
