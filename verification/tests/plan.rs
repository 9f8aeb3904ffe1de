use duck_hash_join::plan::{csv_fields, joined_columns};

#[test]
fn lists_are_split_at_commas() {
    let fields = |text: &str| -> Vec<String> {
        csv_fields(text.as_bytes())
            .into_iter()
            .map(|f| String::from_utf8(f).unwrap())
            .collect()
    };
    assert_eq!(fields("2,5,6"), vec!["2", "5", "6"]);
    assert_eq!(fields("0.0, 0.5"), vec!["0.0", " 0.5"]);
    assert_eq!(fields(",1,,2,"), vec!["1", "2"]);
    assert_eq!(fields("7"), vec!["7"]);
    assert!(fields("").is_empty());
    assert!(fields(",,").is_empty());
}

#[test]
fn joined_columns_run_table_by_table() {
    assert_eq!(
        joined_columns(3, 2),
        vec![(0, 0), (1, 0), (2, 0), (0, 1), (1, 1), (2, 1)]
    );
    assert!(joined_columns(0, 4).is_empty());
    assert!(joined_columns(4, 0).is_empty());
}
