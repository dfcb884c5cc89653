//! Reconciliation of a ledger's duplicated-transaction log.
//!
//! Transactions that were replayed at several block heights are read as
//! records, each carrying the ordered list of heights at which the same
//! transaction appears. The first height is the canonical occurrence;
//! every later one is an erroneous duplicate. The library classifies
//! each record by operation kind, sums the duplicates' effects into a
//! height-and-address keyed mint table and a sender/receiver keyed send
//! table, derives per-address grand totals, and lays the tables out as
//! report rows with optional display aliases.

pub mod aggregate;
pub mod alias;
pub mod laws;
pub mod numbers;
pub mod order;
pub mod record;
pub mod report;
pub mod send;
pub mod strsplit;
pub mod tables;
pub mod totals;
