//! Filename selection and ordering.

use db_migrate::names::file_has_suffix;
use db_migrate::repo::{filter_by_suffix, lex_le_files, reverse_files, select_sql_files, sort_files};

fn strings(names: &[&str]) -> Vec<String> {
    names.iter().map(|s| s.to_string()).collect()
}

#[test]
fn suffix_is_detected() {
    assert!(file_has_suffix("100_a_up.sql", "_up.sql"));
    assert!(!file_has_suffix("100_a_down.sql", "_up.sql"));
    assert!(!file_has_suffix("up.sql", "_up.sql"));
}

#[test]
fn filter_keeps_only_suffix_matches_in_order() {
    let files = strings(&["200_b_up.sql", "100_a_down.sql", "100_a_up.sql", "notes.txt"]);
    let kept = filter_by_suffix(&files, "_up.sql");
    assert_eq!(kept, strings(&["200_b_up.sql", "100_a_up.sql"]));
}

#[test]
fn sort_orders_ascending() {
    let files = strings(&["300_c_up.sql", "100_a_up.sql", "200_b_up.sql"]);
    let sorted = sort_files(files);
    assert_eq!(sorted, strings(&["100_a_up.sql", "200_b_up.sql", "300_c_up.sql"]));
}

#[test]
fn reverse_turns_ascending_into_descending() {
    let files = strings(&["100_a_down.sql", "200_b_down.sql", "300_c_down.sql"]);
    let rev = reverse_files(files);
    assert_eq!(rev, strings(&["300_c_down.sql", "200_b_down.sql", "100_a_down.sql"]));
}

#[test]
fn select_filters_and_sorts() {
    let files = strings(&[
        "300_c_up.sql",
        "100_a_up.sql",
        "150_x_down.sql",
        "200_b_up.sql",
        "junk",
    ]);
    let selected = select_sql_files(&files, "_up.sql");
    assert_eq!(selected, strings(&["100_a_up.sql", "200_b_up.sql", "300_c_up.sql"]));
}

#[test]
fn lexicographic_order_on_filenames() {
    assert!(lex_le_files("100_a_up.sql", "200_a_up.sql"));
    assert!(!lex_le_files("200_a_up.sql", "100_a_up.sql"));
    assert!(lex_le_files("", "100"));
    assert!(lex_le_files("100", "100"));
}
