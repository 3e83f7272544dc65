//! Chain-state snapshot, decoding and aggregation engine.
//!
//! The library decodes self-describing value trees pulled from a remote
//! ledger's key-value store into typed records, persists the decoded
//! collections as JSON snapshot documents, aggregates balances and outgoing
//! stake into per-identity totals, and verifies detached sr25519 attestations
//! over arbitrary payloads.

pub mod aggregate;
pub mod attest;
pub mod errors;
pub mod ids;
pub mod json;
pub mod meta;
pub mod records;
pub mod snapshot;
pub mod tree;
