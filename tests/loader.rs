use string_ids::loader::{load_table, parse_line};

#[test]
fn malformed_lines_are_skipped() {
    let lines = vec![
        "100\tx\tfirst".to_string(),
        "200\tonly two".to_string(),
        "abc\tx\tnot a number".to_string(),
        "300\ty\tthird\textra".to_string(),
    ];
    let t = load_table(&lines);
    assert_eq!(t.len(), 2);
    assert_eq!(t.get(&100), Some(&"first".to_string()));
    assert_eq!(t.get(&300), Some(&"third".to_string()));
    assert_eq!(t.get(&200), None);
}

#[test]
fn parses_a_well_formed_line() {
    assert_eq!(
        parse_line("4294967295\tkind\tHello, world"),
        Some((4294967295, "Hello, world".to_string()))
    );
    assert_eq!(parse_line("+17\t\t"), Some((17, String::new())));
}

#[test]
fn rejects_bad_hash_fields() {
    assert_eq!(parse_line("4294967296\tx\ttoo big"), None);
    assert_eq!(parse_line("-1\tx\tnegative"), None);
    assert_eq!(parse_line("\tx\tempty"), None);
    assert_eq!(parse_line(""), None);
    assert_eq!(parse_line("5\t\t"), Some((5, String::new())));
}

#[test]
fn later_line_replaces_earlier() {
    let lines = vec!["9\ta\told".to_string(), "9\tb\tnew".to_string()];
    let t = load_table(&lines);
    assert_eq!(t.len(), 1);
    assert_eq!(t.get(&9), Some(&"new".to_string()));
}
