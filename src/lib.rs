//! Reconciles the sequence state of on-chain concurrent Merkle trees with an
//! index of their changes: compares sequence counters, turns missing sequence
//! numbers into repair ranges, decodes change-log events, restores the order
//! of results that complete out of order, and audits leaves.

pub mod leaf;
pub mod ranges;
pub mod reorder;
pub mod status;
pub mod chain;
pub mod audit;
pub mod decode;
pub mod pipeline;
pub mod ingester;
pub mod query;
