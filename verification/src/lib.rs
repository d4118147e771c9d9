//! Frecency scoring for files in a version-controlled repository.
//!
//! Walks the first-parent commit chain of a repository, computes a
//! recency-decayed, size-penalized contribution per touched file per commit,
//! caches the time-independent per-commit part persistently, and merges the
//! contributions into one score per path.
//!
//! Scores are exact fixed-point integers in units of 1/SCALE, so that
//! accumulation is associative and the result is independent of how the
//! commit sequence is partitioned into work chunks.

pub mod arith;
pub mod backend;
pub mod codec;
pub mod engine;
pub mod pipeline;
pub mod score_map;
pub mod statics;

pub use arith::SCALE;
pub use pipeline::{analyze_repo, analyze_repo_with};
