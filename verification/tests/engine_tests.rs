//! Forward and reverse runs against an in-memory ledger.

use db_migrate::Kind;
use db_migrate::engine::{plan_apply, plan_undo};
use db_migrate::ledger::Ledger;
use db_migrate::repo::{reverse_files, select_sql_files};

fn strings(names: &[&str]) -> Vec<String> {
    names.iter().map(|s| s.to_string()).collect()
}

fn forward_files() -> Vec<String> {
    strings(&["100_alpha_up.sql", "200_beta_up.sql", "300_gamma_up.sql"])
}

fn reverse_list() -> Vec<String> {
    let discovered = strings(&["100_alpha_down.sql", "200_beta_down.sql", "300_gamma_down.sql"]);
    reverse_files(select_sql_files(&discovered, "_down.sql"))
}

#[test]
fn apply_plans_all_when_nothing_applied() {
    let plan = plan_apply(&forward_files(), &Vec::new());
    let ids: Vec<&str> = plan.iter().map(|cs| cs.id.as_str()).collect();
    assert_eq!(ids, vec!["100", "200", "300"]);
    let names: Vec<&str> = plan.iter().map(|cs| cs.name.as_str()).collect();
    assert_eq!(names, vec!["alpha", "beta", "gamma"]);
}

#[test]
fn apply_skips_applied_and_keeps_order() {
    let plan = plan_apply(&forward_files(), &strings(&["100"]));
    let ids: Vec<&str> = plan.iter().map(|cs| cs.id.as_str()).collect();
    assert_eq!(ids, vec!["200", "300"]);
}

#[test]
fn apply_twice_is_idempotent() {
    let mut ledger = Ledger::new();
    let plan = plan_apply(&forward_files(), &ledger.applied_ids(Kind::Migration));
    assert_eq!(plan.len(), 3);
    for cs in &plan {
        ledger
            .mark_applied(Kind::Migration, cs.id.as_str(), cs.name.as_str())
            .expect("fresh id");
    }
    let again = plan_apply(&forward_files(), &ledger.applied_ids(Kind::Migration));
    assert_eq!(again.len(), 0);
}

#[test]
fn failure_mid_run_leaves_earlier_marks_and_stops() {
    let mut ledger = Ledger::new();
    let plan = plan_apply(&forward_files(), &ledger.applied_ids(Kind::Migration));
    let mut failed = false;
    for cs in &plan {
        // The body of change-set 200 fails to execute: the run aborts at
        // once and later entries are never attempted.
        if cs.id == "200" {
            failed = true;
            break;
        }
        ledger
            .mark_applied(Kind::Migration, cs.id.as_str(), cs.name.as_str())
            .expect("fresh id");
    }
    assert!(failed);
    assert!(ledger.is_applied(Kind::Migration, "100"));
    assert!(!ledger.is_applied(Kind::Migration, "200"));
    assert!(!ledger.is_applied(Kind::Migration, "300"));
    // A re-run resumes from the failure point.
    let resume = plan_apply(&forward_files(), &ledger.applied_ids(Kind::Migration));
    let ids: Vec<&str> = resume.iter().map(|cs| cs.id.as_str()).collect();
    assert_eq!(ids, vec!["200", "300"]);
}

#[test]
fn undo_reverts_only_newest_then_next() {
    let mut ledger = Ledger::new();
    for (id, name) in [("100", "alpha"), ("200", "beta"), ("300", "gamma")] {
        ledger.mark_applied(Kind::Migration, id, name).expect("fresh id");
    }
    let first = plan_undo(&reverse_list(), &ledger.applied_ids(Kind::Migration))
        .expect("something applied");
    assert_eq!(first.id, "300");
    ledger.unmark_applied(Kind::Migration, first.id.as_str());
    assert!(ledger.is_applied(Kind::Migration, "100"));
    assert!(ledger.is_applied(Kind::Migration, "200"));
    assert!(!ledger.is_applied(Kind::Migration, "300"));

    let second = plan_undo(&reverse_list(), &ledger.applied_ids(Kind::Migration))
        .expect("something applied");
    assert_eq!(second.id, "200");
}

#[test]
fn undo_on_empty_ledger_is_a_noop() {
    let ledger = Ledger::new();
    let choice = plan_undo(&reverse_list(), &ledger.applied_ids(Kind::Migration));
    assert!(choice.is_none());
}

#[test]
fn forward_file_without_reverse_pair() {
    // The forward file applies although no reverse file matches its id.
    let mut ledger = Ledger::new();
    let fwd = strings(&["100_alpha_up.sql"]);
    let plan = plan_apply(&fwd, &ledger.applied_ids(Kind::Migration));
    assert_eq!(plan.len(), 1);
    ledger
        .mark_applied(Kind::Migration, plan[0].id.as_str(), plan[0].name.as_str())
        .expect("fresh id");
    // A later reverse run finds no reverse file for it: a no-op.
    let rev: Vec<String> = Vec::new();
    let choice = plan_undo(&rev, &ledger.applied_ids(Kind::Migration));
    assert!(choice.is_none());
    assert!(ledger.is_applied(Kind::Migration, "100"));
}

#[test]
fn migrations_and_seeds_are_independent() {
    let mut ledger = Ledger::new();
    ledger.mark_applied(Kind::Migration, "100", "alpha").expect("fresh id");
    assert!(ledger.is_applied(Kind::Migration, "100"));
    assert!(!ledger.is_applied(Kind::Seed, "100"));
    assert_eq!(ledger.applied_ids(Kind::Seed).len(), 0);
    // The same id can be applied as a seed, and reverting it as a seed
    // leaves the migration applied.
    ledger.mark_applied(Kind::Seed, "100", "demo_rows").expect("fresh id");
    ledger.unmark_applied(Kind::Seed, "100");
    assert!(ledger.is_applied(Kind::Migration, "100"));
    assert!(!ledger.is_applied(Kind::Seed, "100"));
}
