//! Ordered, idempotent application of versioned schema and data change-sets
//! against a relational store, with single-step undo.
//!
//! Change-set files are discovered by name, cross-referenced against a ledger
//! of applied ids, applied in ascending filename order, and reverted one at a
//! time in descending order. The decision logic lives here, fully verified;
//! the surrounding process performs the file reads and statement execution and
//! hands plain values in and out.

use vstd::prelude::*;

pub mod clock;
pub mod config;
pub mod dto;
pub mod engine;
pub mod ledger;
pub mod names;
pub mod repo;

verus! {

/// The two independent change-set namespaces. Migrations and seeds are
/// tracked in separate ledger tables and never cross-checked.
#[derive(Clone, Copy, PartialEq, Eq, Structural)]
pub enum Kind {
    Migration,
    Seed,
}

} // verus!
