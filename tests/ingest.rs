use epr_sim::ascii::intensity_fields;

#[test]
fn three_column_lines_give_their_third_column() {
    let f = intensity_fields("1 2 3.5\n4 5 6.0\nbad line\n7 8 9.25");
    assert_eq!(f, vec!["3.5".to_string(), "6.0".to_string(), "9.25".to_string()]);
}

#[test]
fn other_column_counts_are_skipped() {
    let f = intensity_fields("1 2\n1 2 3 4\n\n  a   b   c  \n1\t2\t3\r\n");
    assert_eq!(f, vec!["c".to_string(), "3".to_string()]);
}

#[test]
fn empty_text_gives_nothing() {
    assert!(intensity_fields("").is_empty());
    assert!(intensity_fields("\n\n").is_empty());
}

#[test]
fn unicode_spaces_separate_columns() {
    let f = intensity_fields("x\u{00a0}y\u{3000}zé\nα β γ\n");
    assert_eq!(f, vec!["zé".to_string(), "γ".to_string()]);
}
