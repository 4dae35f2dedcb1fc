//! Filename parsing behaviour.

use db_migrate::names::parse_id_name_from_file;

#[test]
fn parses_forward_filename() {
    let r = parse_id_name_from_file("1700000000000_add_users_table_up.sql");
    let (id, name) = r.expect("filename should parse");
    assert_eq!(id, "1700000000000");
    assert_eq!(name, "add_users_table");
}

#[test]
fn parses_reverse_filename() {
    let r = parse_id_name_from_file("1700000000000_add_users_table_down.sql");
    let (id, name) = r.expect("filename should parse");
    assert_eq!(id, "1700000000000");
    assert_eq!(name, "add_users_table");
}

#[test]
fn skips_filename_without_underscore() {
    assert!(parse_id_name_from_file("README").is_none());
    assert!(parse_id_name_from_file("").is_none());
}

#[test]
fn parses_empty_name() {
    let (id, name) = parse_id_name_from_file("1_").expect("filename should parse");
    assert_eq!(id, "1");
    assert_eq!(name, "");
}

#[test]
fn strips_only_the_trailing_suffix() {
    let (id, name) = parse_id_name_from_file("5_a_up.sql_up.sql").expect("filename should parse");
    assert_eq!(id, "5");
    assert_eq!(name, "a_up.sql");

    let (id, name) =
        parse_id_name_from_file("100_a_up.sql_b_up.sql").expect("filename should parse");
    assert_eq!(id, "100");
    assert_eq!(name, "a_up.sql_b");

    let (id, name) =
        parse_id_name_from_file("7_a_down.sql_up.sql").expect("filename should parse");
    assert_eq!(id, "7");
    assert_eq!(name, "a_down.sql");
}

#[test]
fn keeps_a_name_with_no_trailing_suffix_whole() {
    let (id, name) = parse_id_name_from_file("1__up.sqlX").expect("filename should parse");
    assert_eq!(id, "1");
    assert_eq!(name, "_up.sqlX");
}

#[test]
fn id_is_text_before_first_underscore() {
    let (id, name) = parse_id_name_from_file("_leading_up.sql").expect("filename should parse");
    assert_eq!(id, "");
    assert_eq!(name, "leading");
}
