//! A verified analyzer for an append-only, tip-referencing transaction ledger.
//!
//! A ledger is a line-oriented text description of a directed acyclic
//! reference graph: each record approves up to two earlier records and
//! carries a timestamp that must not precede the timestamps of what it
//! approves. The parser validates every record against the structural and
//! temporal rules; the statistics engine reads the resulting sequence and
//! reports exact integer aggregates (depth sums, reference counts, validity
//! counts) from which the usual ratio metrics are formed.

pub mod ledger;
pub mod parse;
pub mod stats;
