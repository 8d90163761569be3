//! Canonical ledger identifiers and a deterministic, tag-discriminated binary codec.
pub mod wire;
pub mod ids;
pub mod model;
pub mod hex;
pub mod samples;
