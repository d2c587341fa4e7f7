use association_rules::{
    _filter_combined_occurrences, _recursive_filter_combined_occurrences, filter_occurrences,
    find_matching_rows, get_unique_values, load_records, read_csv, DataFrame, ReadError,
};

fn s(x: &str) -> String {
    x.to_string()
}

fn strings(xs: &[&str]) -> Vec<String> {
    xs.iter().map(|x| x.to_string()).collect()
}

fn frame(columns: &[(&str, &[&str])]) -> DataFrame {
    let mut df = DataFrame::new();
    for (h, col) in columns {
        df.insert(s(h), strings(col));
    }
    df
}

fn column<'a>(df: &'a DataFrame, h: &str) -> Option<&'a Vec<String>> {
    df.get(&s(h))
}

#[test]
fn insert_replaces_existing_column() {
    let mut df = frame(&[("a", &["1", "2"])]);
    df.insert(s("a"), strings(&["3"]));
    assert_eq!(column(&df, "a"), Some(&strings(&["3"])));
    assert_eq!(df.header_list().len(), 1);
}

#[test]
fn push_entry_creates_then_appends() {
    let mut df = DataFrame::new();
    df.push_entry(&s("a"), s("x"));
    df.push_entry(&s("a"), s("y"));
    assert_eq!(column(&df, "a"), Some(&strings(&["x", "y"])));
    assert!(!df.contains_key(&s("b")));
}

#[test]
fn filter_occurrences_keeps_equal_values() {
    let df = frame(&[("a", &["x", "y", "x"]), ("b", &["1", "2", "3"])]);
    let r = filter_occurrences(&df, &s("a"), &s("x"));
    assert_eq!(column(&r, "a"), Some(&strings(&["x", "x"])));
    assert_eq!(r.header_list().len(), 1);
}

#[test]
fn filter_occurrences_missing_header_gives_empty_column() {
    let df = frame(&[("a", &["x"])]);
    let r = filter_occurrences(&df, &s("zz"), &s("x"));
    assert_eq!(column(&r, "zz"), Some(&Vec::new()));
}

#[test]
fn find_matching_rows_all_conditions() {
    let df = frame(&[("a", &["1", "2", "1", "1"]), ("b", &["p", "q", "q", "p"])]);
    let r = find_matching_rows(&df, vec![(s("a"), s("1")), (s("b"), s("p"))]);
    assert_eq!(r, vec![0, 3]);
    let one = find_matching_rows(&df, vec![(s("a"), s("1"))]);
    assert_eq!(one, vec![0, 2, 3]);
}

#[test]
fn find_matching_rows_missing_header_gives_nothing() {
    let df = frame(&[("a", &["1", "1"])]);
    let r = find_matching_rows(&df, vec![(s("a"), s("1")), (s("c"), s("1"))]);
    assert_eq!(r, Vec::<usize>::new());
}

#[test]
fn find_matching_rows_shorter_later_column() {
    let df = frame(&[("a", &["1", "1", "1"]), ("b", &["p"])]);
    let r = find_matching_rows(&df, vec![(s("a"), s("1")), (s("b"), s("p"))]);
    assert_eq!(r, vec![0]);
}

#[test]
fn unique_values_in_first_occurrence_order() {
    let df = frame(&[("a", &["x", "y", "x", "z", "y"]), ("b", &[])]);
    let u = get_unique_values(&df);
    assert_eq!(column(&u, "a"), Some(&strings(&["x", "y", "z"])));
    assert_eq!(column(&u, "b"), Some(&Vec::new()));
    assert_eq!(u.header_list().len(), 2);
}

#[test]
fn filter_combined_two_headers() {
    let df1 = frame(&[("a", &["1", "2", "1", "1"])]);
    let df2 = frame(&[("b", &["p", "p", "q"])]);
    let r = _filter_combined_occurrences(&df1, &df2, &s("a"), &s("1"), &s("b"), &s("p"));
    assert_eq!(column(&r, "a"), Some(&strings(&["1"])));
    assert_eq!(column(&r, "b"), Some(&strings(&["p"])));
}

#[test]
fn filter_combined_same_header_interleaves() {
    let df = frame(&[("a", &["1", "1", "2"])]);
    let r = _filter_combined_occurrences(&df, &df, &s("a"), &s("1"), &s("a"), &s("1"));
    assert_eq!(column(&r, "a"), Some(&strings(&["1", "1", "1", "1"])));
    assert_eq!(r.header_list().len(), 1);
}

#[test]
fn filter_combined_missing_header() {
    let df = frame(&[("a", &["1"])]);
    let r = _filter_combined_occurrences(&df, &df, &s("a"), &s("1"), &s("b"), &s("1"));
    assert_eq!(column(&r, "a"), Some(&Vec::new()));
    assert_eq!(column(&r, "b"), Some(&Vec::new()));
}

#[test]
fn recursive_filter_collects_first_table_values() {
    let df0 = frame(&[("a", &["1", "2", "1"]), ("b", &["x", "y", "z"])]);
    let df1 = frame(&[("b", &["x", "y", "q"])]);
    let r = _recursive_filter_combined_occurrences(
        vec![&df0, &df1],
        vec![(s("a"), s("1")), (s("b"), s("x"))],
    );
    assert_eq!(column(&r, "a"), Some(&strings(&["1"])));
    assert_eq!(column(&r, "b"), Some(&strings(&["x"])));
}

#[test]
fn recursive_filter_repeated_header() {
    let df0 = frame(&[("a", &["1", "2", "1"])]);
    let r = _recursive_filter_combined_occurrences(
        vec![&df0, &df0],
        vec![(s("a"), s("1")), (s("a"), s("1"))],
    );
    assert_eq!(column(&r, "a"), Some(&strings(&["1", "1", "1", "1"])));
}

#[test]
fn recursive_filter_no_conditions() {
    let df0 = frame(&[("a", &["1"])]);
    let r = _recursive_filter_combined_occurrences(vec![&df0], Vec::new());
    assert_eq!(r.header_list().len(), 0);
}

#[test]
fn recursive_filter_missing_first_header() {
    let df0 = frame(&[("a", &["1"])]);
    let r = _recursive_filter_combined_occurrences(vec![&df0], vec![(s("z"), s("1"))]);
    assert_eq!(column(&r, "z"), Some(&Vec::new()));
}

#[test]
fn read_csv_builds_columns() {
    let mut df = DataFrame::new();
    let mut headers = Vec::new();
    let r = read_csv(&mut df, b"a,b\n1,2\n3,4\n", &mut headers);
    assert!(r.is_ok());
    assert_eq!(headers, strings(&["a", "b"]));
    assert_eq!(column(&df, "a"), Some(&strings(&["1", "3"])));
    assert_eq!(column(&df, "b"), Some(&strings(&["2", "4"])));
}

#[test]
fn read_csv_header_only_gives_no_columns() {
    let mut df = DataFrame::new();
    let mut headers = Vec::new();
    assert!(read_csv(&mut df, b"a,b\n", &mut headers).is_ok());
    assert_eq!(headers, strings(&["a", "b"]));
    assert_eq!(df.header_list().len(), 0);
}

#[test]
fn read_csv_unequal_lengths_is_error_and_changes_nothing() {
    let mut df = DataFrame::new();
    let mut headers = strings(&["old"]);
    let r = read_csv(&mut df, b"a,b\n1,2,3\n", &mut headers);
    assert!(matches!(r, Err(ReadError::Csv(_))));
    assert_eq!(headers, strings(&["old"]));
    assert_eq!(df.header_list().len(), 0);
}

#[test]
fn read_csv_invalid_utf8_is_error() {
    let mut df = DataFrame::new();
    let mut headers = Vec::new();
    let r = read_csv(&mut df, b"a,\xff\n1,2\n", &mut headers);
    assert!(r.is_err());
    assert!(headers.is_empty());
}

#[test]
fn load_records_duplicate_headers_share_a_column() {
    let mut df = DataFrame::new();
    let mut headers = Vec::new();
    let records = vec![strings(&["1", "2"]), strings(&["3", "4"])];
    load_records(&mut df, &mut headers, strings(&["a", "a"]), &records);
    assert_eq!(column(&df, "a"), Some(&strings(&["1", "2", "3", "4"])));
}

#[test]
fn load_records_indexes_whole_header_list() {
    let mut df = DataFrame::new();
    let mut headers = strings(&["x"]);
    let records = vec![strings(&["1", "2"])];
    load_records(&mut df, &mut headers, strings(&["y"]), &records);
    assert_eq!(headers, strings(&["x", "y"]));
    assert_eq!(column(&df, "x"), Some(&strings(&["1"])));
    assert_eq!(column(&df, "y"), Some(&strings(&["2"])));
}

#[test]
fn occurrence_count_equals_single_condition_rows() {
    let df = frame(&[("a", &["x", "y", "x", "x"])]);
    for v in ["x", "y", "z"] {
        let occ = filter_occurrences(&df, &s("a"), &s(v));
        let rows = find_matching_rows(&df, vec![(s("a"), s(v))]);
        assert_eq!(column(&occ, "a").unwrap().len(), rows.len());
    }
}

#[test]
fn rows_meeting_both_sides_are_rows_of_each_side() {
    let df = frame(&[("a", &["1", "2", "1", "1"]), ("b", &["p", "q", "q", "p"])]);
    let left = find_matching_rows(&df, vec![(s("a"), s("1"))]);
    let right = find_matching_rows(&df, vec![(s("b"), s("p"))]);
    let both = find_matching_rows(&df, vec![(s("a"), s("1")), (s("b"), s("p"))]);
    for row in &both {
        assert!(left.contains(row));
        assert!(right.contains(row));
    }
    assert!(both.len() <= left.len() && both.len() <= right.len());
}

#[test]
fn matching_rows_ignore_condition_order() {
    let df = frame(&[("a", &["1", "2", "1", "1"]), ("b", &["p", "q", "q", "p", "p"])]);
    let ab = find_matching_rows(&df, vec![(s("a"), s("1")), (s("b"), s("p"))]);
    let ba = find_matching_rows(&df, vec![(s("b"), s("p")), (s("a"), s("1"))]);
    assert_eq!(ab, ba);
    assert_eq!(ab, vec![0, 3]);
}

#[test]
fn combined_filter_is_symmetric() {
    let df1 = frame(&[("a", &["1", "2", "1", "1"])]);
    let df2 = frame(&[("b", &["p", "p", "p"])]);
    let r1 = _filter_combined_occurrences(&df1, &df2, &s("a"), &s("1"), &s("b"), &s("p"));
    let r2 = _filter_combined_occurrences(&df2, &df1, &s("b"), &s("p"), &s("a"), &s("1"));
    for h in ["a", "b"] {
        assert_eq!(column(&r1, h), column(&r2, h));
    }
    assert_eq!(column(&r1, "a"), Some(&strings(&["1", "1"])));
}

#[test]
fn combined_filter_equals_chained_over_one_table() {
    let df = frame(&[("a", &["1", "2", "1", "1"]), ("b", &["p", "p", "q", "p"])]);
    let paired = _filter_combined_occurrences(&df, &df, &s("a"), &s("1"), &s("b"), &s("p"));
    let chained = _recursive_filter_combined_occurrences(vec![&df, &df], vec![(s("a"), s("1")), (s("b"), s("p"))]);
    for h in ["a", "b"] {
        assert_eq!(column(&paired, h), column(&chained, h));
    }
    assert_eq!(column(&paired, "b"), Some(&strings(&["p", "p"])));
}

#[test]
fn chained_over_one_table_takes_values_at_matching_rows() {
    let df = frame(&[("a", &["1", "2", "1", "1"]), ("b", &["p", "q", "q", "p"]), ("c", &["x", "y", "z", "w"])]);
    let conds = vec![(s("a"), s("1")), (s("c"), s("w"))];
    let rows = find_matching_rows(&df, conds.clone());
    let chained = _recursive_filter_combined_occurrences(vec![&df, &df], conds);
    let expected: Vec<String> = rows.iter().map(|&i| column(&df, "c").unwrap()[i].clone()).collect();
    assert_eq!(column(&chained, "c"), Some(&expected));
    assert_eq!(expected, strings(&["w"]));
}

#[test]
fn adding_a_condition_only_removes_rows() {
    let df = frame(&[("a", &["1", "1", "1", "2"]), ("b", &["p", "q", "p", "p"])]);
    let one = _recursive_filter_combined_occurrences(vec![&df, &df], vec![(s("a"), s("1"))]);
    let two = _recursive_filter_combined_occurrences(
        vec![&df, &df],
        vec![(s("a"), s("1")), (s("b"), s("p"))],
    );
    assert_eq!(column(&one, "a").unwrap().len(), 3);
    assert_eq!(column(&two, "a").unwrap().len(), 2);
}

#[test]
fn unique_values_twice_changes_nothing() {
    let df = frame(&[("a", &["x", "y", "x"]), ("b", &["1", "1"])]);
    let once = get_unique_values(&df);
    let twice = get_unique_values(&once);
    for h in ["a", "b"] {
        assert_eq!(column(&once, h), column(&twice, h));
    }
}

#[test]
fn unique_value_counts_add_up_to_column_length() {
    let df = frame(&[("a", &["x", "y", "x", "z", "x"])]);
    let unique = get_unique_values(&df);
    let total: usize = column(&unique, "a")
        .unwrap()
        .iter()
        .map(|v| column(&filter_occurrences(&df, &s("a"), v), "a").unwrap().len())
        .sum();
    assert_eq!(total, 5);
}
