//! Byte-pair-encoding trainer.
//!
//! Training scans a byte sequence, repeatedly replaces the most frequent
//! adjacent token pair with a fresh token, and records each replacement as a
//! merge rule in an append-only vocabulary.  The pair-frequency index is kept
//! consistent with the working sequence incrementally, instead of being
//! rebuilt from scratch each round.  A decoder expands tokens back to bytes,
//! and a sampler walks the vocabulary to produce new byte sequences.

pub mod pairs;
pub mod vocab;
pub mod freq;
pub mod merger;
pub mod decoder;
pub mod selector;
pub mod trainer;
pub mod generator;
