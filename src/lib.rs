//! Per-key minimum, maximum, average and count over a large file of `key;value` lines:
//! line-aligned chunking, splittable chunk ranges, a one-pass chunk aggregator, a merge of
//! per-chunk results in key order, and the report text.
use vstd::prelude::*;

pub mod chunker;
pub mod range;
pub mod key;
pub mod stats;
pub mod summary;
pub mod value;
pub mod aggregate;
pub mod merge;
pub mod report;
pub mod partition;
pub mod fork_join;

pub use chunker::{chunk_it, Chunk};

verus! {

} // verus!
