//! Producer-neutral corpus bounds, identity and graph scoring.
//!
//! Fixture repositories are opaque data: the library only frames their bytes
//! for identity digests and scores the canonical records a producer emits.
pub mod json;
pub mod text;
pub mod order;
pub mod error;

pub use error::CorpusError;
pub mod score;
pub mod case;
pub mod report;
pub mod bounds;
pub mod verdict;
pub mod relation;
pub mod digest;
pub mod producer;
pub mod refresh;
pub mod coverage;
pub mod audit;
pub mod scoring;
pub mod laws;
pub mod fixtures;
