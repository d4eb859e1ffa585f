//! An in-memory bank ledger and a generator for the verses of a cumulative carol.
pub mod bank;
pub mod song;
