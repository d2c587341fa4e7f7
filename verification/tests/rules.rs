use association_rules::{
    combine, combine_superior_rules, first_degree_rules, first_degree_stats, get_rules_info,
    meets_min_support, mine_rounds, pair_rule, read_csv, round_is_defined, superior_round,
    values_combinations, DataFrame, RoundsEnd, RuleCounts,
};

fn s(x: &str) -> String {
    x.to_string()
}

fn strings(xs: &[&str]) -> Vec<String> {
    xs.iter().map(|x| x.to_string()).collect()
}

const DATA: &[u8] = b"color,size,shape\nred,big,round\nred,big,square\nblue,small,round\nred,big,round\n";

fn dataset() -> (DataFrame, Vec<String>) {
    let mut df = DataFrame::new();
    let mut headers = Vec::new();
    read_csv(&mut df, DATA, &mut headers).unwrap();
    (df, headers)
}

#[test]
fn combine_all_ordered_pairs() {
    let mut out = Vec::new();
    combine(&strings(&["a", "b", "c"]), 0, &mut out);
    let expected: Vec<Vec<String>> = vec![
        strings(&["a", "b"]),
        strings(&["a", "c"]),
        strings(&["b", "a"]),
        strings(&["b", "c"]),
        strings(&["c", "a"]),
        strings(&["c", "b"]),
    ];
    assert_eq!(out, expected);
}

#[test]
fn combine_from_start_appends() {
    let mut out = vec![strings(&["z"])];
    combine(&strings(&["a", "b", "c"]), 1, &mut out);
    assert_eq!(out, vec![strings(&["z"]), strings(&["b", "c"]), strings(&["c", "b"])]);
    let mut none = Vec::new();
    combine(&strings(&["a"]), 5, &mut none);
    assert!(none.is_empty());
}

#[test]
fn combine_count_is_n_times_n_minus_one() {
    let mut out = Vec::new();
    combine(&strings(&["a", "b", "c", "d"]), 0, &mut out);
    assert_eq!(out.len(), 12);
}

#[test]
fn values_combinations_product() {
    let r = values_combinations(&strings(&["1", "2"]), &strings(&["p", "q", "r"]));
    assert_eq!(r.len(), 6);
    assert_eq!(r[0], strings(&["1", "p"]));
    assert_eq!(r[1 * 3 + 2], strings(&["2", "r"]));
    assert!(values_combinations(&Vec::new(), &strings(&["p"])).is_empty());
}

#[test]
fn combine_superior_rules_upper_pairs() {
    let r0 = vec![strings(&["a", "1"])];
    let r1 = vec![strings(&["b", "2"])];
    let r2 = vec![strings(&["c", "3"])];
    let out = combine_superior_rules(&vec![r0.clone(), r1.clone(), r2.clone()]);
    assert_eq!(out, vec![vec![r0.clone(), r1.clone()], vec![r0, r2.clone()], vec![r1, r2]]);
    let four = combine_superior_rules(&vec![Vec::new(), Vec::new(), Vec::new(), Vec::new()]);
    assert_eq!(four.len(), 6);
}

#[test]
fn get_rules_info_splits_pieces_and_fields() {
    let r = get_rules_info(&strings(&["a:1-b:2", "x", "p:-:q"]));
    assert_eq!(r[0], vec![strings(&["a", "1"]), strings(&["b", "2"])]);
    assert_eq!(r[1], vec![strings(&["x"])]);
    assert_eq!(r[2], vec![strings(&["p", ""]), strings(&["", "q"])]);
}

#[test]
fn pair_rule_round_trips() {
    let text = pair_rule(&s("color"), &s("red"), &s("size"), &s("big"));
    assert_eq!(text, s("color:red-size:big"));
    let parsed = get_rules_info(&vec![text]);
    assert_eq!(parsed[0], vec![strings(&["color", "red"]), strings(&["size", "big"])]);
}

#[test]
fn min_support_is_one_half() {
    assert!(meets_min_support(1, 2));
    assert!(meets_min_support(2, 3));
    assert!(!meets_min_support(1, 3));
    assert!(!meets_min_support(0, 0));
    assert!(meets_min_support(0, 0) == false);
}

#[test]
fn first_degree_counts() {
    let (df, headers) = dataset();
    let stats = first_degree_stats(&df, &headers);
    assert_eq!(stats.len(), 6);
    assert_eq!(stats[0].header_x, s("color"));
    assert_eq!(stats[0].header_y, s("size"));
    assert_eq!(stats[0].values.len(), 4);
    let red_big = &stats[0].values[0];
    assert_eq!(red_big.value_x, s("red"));
    assert_eq!(red_big.value_y, s("big"));
    assert_eq!(red_big.counts, RuleCounts { count_x: 3, count_y: 3, count_xy: 3, total: 4 });
    let blue_small = &stats[0].values[3];
    assert_eq!(blue_small.counts, RuleCounts { count_x: 1, count_y: 1, count_xy: 1, total: 4 });
    let red_round = &stats[1].values[0];
    assert_eq!(red_round.counts, RuleCounts { count_x: 3, count_y: 3, count_xy: 2, total: 4 });
}

#[test]
fn first_degree_counts_never_exceed_sides() {
    let (df, headers) = dataset();
    for pair in first_degree_stats(&df, &headers) {
        for v in pair.values {
            assert!(v.counts.count_xy <= v.counts.count_x);
            assert!(v.counts.count_xy <= v.counts.count_y);
            assert!(v.counts.count_x <= v.counts.total);
        }
    }
}

#[test]
fn first_degree_kept_rules() {
    let (df, headers) = dataset();
    let rules = first_degree_rules(&first_degree_stats(&df, &headers));
    assert_eq!(
        rules,
        strings(&[
            "color:red-size:big",
            "color:red-shape:round",
            "size:big-color:red",
            "size:big-shape:round",
            "shape:round-color:red",
            "shape:round-size:big",
        ])
    );
}

#[test]
fn first_degree_with_one_header_has_no_pairs() {
    let (df, _) = dataset();
    assert!(first_degree_stats(&df, &strings(&["color"])).is_empty());
    assert!(first_degree_stats(&df, &Vec::new()).is_empty());
}

#[test]
fn superior_round_counts_and_text() {
    let (df, headers) = dataset();
    let rules = first_degree_rules(&first_degree_stats(&df, &headers));
    let round = superior_round(&df, &rules);
    assert_eq!(round.stats.len(), 15);
    assert_eq!(round.stats[0].text, s("NX=(color:red - size:big) & NY=(color:red - shape:round)"));
    assert_eq!(round.stats[0].counts, RuleCounts { count_x: 3, count_y: 2, count_xy: 2, total: 4 });
    assert_eq!(round.kept[0], s("color:red-size:big"));
    assert_eq!(round.piece_count, 12);
    for st in &round.stats {
        assert!(st.counts.count_xy <= st.counts.count_x);
        assert!(st.counts.count_xy <= st.counts.count_y);
    }
}

#[test]
fn superior_round_with_one_rule_is_empty() {
    let (df, _) = dataset();
    let round = superior_round(&df, &strings(&["color:red-size:big"]));
    assert!(round.stats.is_empty());
    assert!(round.kept.is_empty());
    assert_eq!(round.piece_count, 2);
}

#[test]
fn mine_rounds_stops_when_all_rules_found() {
    let (df, headers) = dataset();
    let rules = first_degree_rules(&first_degree_stats(&df, &headers));
    let (rounds, end) = mine_rounds(&df, &rules, headers.len());
    assert_eq!(rounds.len(), 1);
    assert_eq!(end, RoundsEnd::AllRulesFound);
}

#[test]
fn mine_rounds_exhausted_without_degrees() {
    let (df, _) = dataset();
    let (rounds, end) = mine_rounds(&df, &strings(&["color:red-size:big"]), 2);
    assert!(rounds.is_empty());
    assert_eq!(end, RoundsEnd::Exhausted);
}

#[test]
fn mine_rounds_undefined_rules() {
    let (df, _) = dataset();
    let bad = strings(&["color-red", "size:big-shape:round"]);
    assert!(!round_is_defined(&df, &bad));
    let (rounds, end) = mine_rounds(&df, &bad, 5);
    assert!(rounds.is_empty());
    assert_eq!(end, RoundsEnd::Undefined);
}

#[test]
fn round_needs_first_header_in_table() {
    let (df, _) = dataset();
    assert!(!round_is_defined(&df, &strings(&["nope:1-size:big", "color:red-size:big"])));
    assert!(round_is_defined(&df, &strings(&["color:red-size:big", "nope:1-size:big"])));
    assert!(round_is_defined(&df, &strings(&["anything"])));
}
