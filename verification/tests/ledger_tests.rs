//! Ledger bookkeeping behaviour.

use db_migrate::Kind;
use db_migrate::clock::timestamp_ms;
use db_migrate::ledger::{Ledger, LedgerError};

#[test]
fn duplicate_mark_is_refused_and_changes_nothing() {
    let mut ledger = Ledger::new();
    ledger.mark_applied(Kind::Migration, "100", "alpha").expect("fresh id");
    let second = ledger.mark_applied(Kind::Migration, "100", "alpha_again");
    assert_eq!(second, Err(LedgerError::DuplicateId));
    assert_eq!(ledger.applied_ids(Kind::Migration), vec!["100".to_string()]);
}

#[test]
fn unmark_of_absent_id_is_a_noop() {
    let mut ledger = Ledger::new();
    ledger.mark_applied(Kind::Seed, "100", "demo_rows").expect("fresh id");
    ledger.unmark_applied(Kind::Seed, "200");
    assert_eq!(ledger.applied_ids(Kind::Seed), vec!["100".to_string()]);
}

#[test]
fn applied_ids_come_in_application_order() {
    let mut ledger = Ledger::new();
    ledger.mark_applied(Kind::Migration, "200", "beta").expect("fresh id");
    ledger.mark_applied(Kind::Migration, "100", "alpha").expect("fresh id");
    assert_eq!(
        ledger.applied_ids(Kind::Migration),
        vec!["200".to_string(), "100".to_string()]
    );
}

#[test]
fn clock_reads_a_positive_time() {
    // The stamp for new files and ledger rows: the epoch is long past.
    assert!(timestamp_ms() > 0);
}
