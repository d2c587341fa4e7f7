use vstd::prelude::*;

use crate::text::{split_chars, split_on};

verus! {

/// A rule's text split into its header-value pieces on `-`, and each piece
/// split into fields on `:`.
pub open spec fn parse_rule(rule: Seq<char>) -> Seq<Seq<Seq<char>>> {
    split_on(rule, '-').map_values(|piece: Seq<char>| split_on(piece, ':'))
}

/// Splits each rule into its header-value pieces, and each piece into its
/// fields.
pub fn get_rules_info(rules: &Vec<String>) -> (r: Vec<Vec<Vec<String>>>)
    ensures
        r.deep_view() == rules.deep_view().map_values(|rule: Seq<char>| parse_rule(rule)),
{
    let mut rules_values: Vec<Vec<Vec<String>>> = Vec::new();
    let mut i: usize = 0;
    while i < rules.len()
        invariant
            i <= rules.len(),
            rules_values.deep_view() == rules.deep_view().take(i as int).map_values(
                |rule: Seq<char>| parse_rule(rule),
            ),
        decreases rules.len() - i,
    {
        let rule_header = split_chars(rules[i].as_str(), '-');
        let mut rule_values: Vec<Vec<String>> = Vec::new();
        let mut k: usize = 0;
        while k < rule_header.len()
            invariant
                k <= rule_header.len(),
                rule_values.deep_view() == rule_header.deep_view().take(k as int).map_values(
                    |piece: Seq<char>| split_on(piece, ':'),
                ),
            decreases rule_header.len() - k,
        {
            let header_values = split_chars(rule_header[k].as_str(), ':');
            let ghost before = rule_values.deep_view();
            rule_values.push(header_values);
            assert(rule_values.deep_view() == before.push(header_values.deep_view()));
            assert(rule_values.deep_view() =~~= rule_header.deep_view().take(k + 1).map_values(
                |piece: Seq<char>| split_on(piece, ':'),
            ));
            k = k + 1;
        }
        assert(rule_header.deep_view().take(rule_header.len() as int) =~= rule_header.deep_view());
        let ghost before = rules_values.deep_view();
        rules_values.push(rule_values);
        assert(rules_values.deep_view() == before.push(rule_values.deep_view()));
        assert(rules_values.deep_view() =~~= rules.deep_view().take(i + 1).map_values(
            |rule: Seq<char>| parse_rule(rule),
        ));
        i = i + 1;
    }
    assert(rules.deep_view().take(rules.len() as int) =~= rules.deep_view());
    rules_values
}

/// The text of the rule pairing `value0` of `header0` with `value1` of
/// `header1`: `header0:value0-header1:value1`.
pub open spec fn pair_rule_text(
    header0: Seq<char>,
    value0: Seq<char>,
    header1: Seq<char>,
    value1: Seq<char>,
) -> Seq<char> {
    header0 + seq![':'] + value0 + seq!['-'] + header1 + seq![':'] + value1
}

/// Builds the text of the rule pairing `value0` of `header0` with `value1` of
/// `header1`.
pub fn pair_rule(header0: &String, value0: &String, header1: &String, value1: &String) -> (r: String)
    ensures
        r@ == pair_rule_text(header0@, value0@, header1@, value1@),
{
    let colon = ":";
    let dash = "-";
    proof {
        reveal_strlit(":");
        reveal_strlit("-");
    }
    assert(colon@ =~= seq![':']);
    assert(dash@ =~= seq!['-']);
    let mut r = String::from_str(header0.as_str());
    r.append(colon);
    r.append(value0.as_str());
    r.append(dash);
    r.append(header1.as_str());
    r.append(colon);
    r.append(value1.as_str());
    r
}

/// Numerator of the least support a rule must reach to be kept.
pub const MIN_SUPPORT_NUMERATOR: u64 = 1;

/// Denominator of the least support a rule must reach to be kept.
pub const MIN_SUPPORT_DENOMINATOR: u64 = 2;

/// Whether `count` rows out of `total` reach the minimum support: the ratio
/// `count / total` is defined and at least the minimum.
pub open spec fn reaches_min_support(count: int, total: int) -> bool {
    total > 0 && count * MIN_SUPPORT_DENOMINATOR >= total * MIN_SUPPORT_NUMERATOR
}

/// Whether a rule met by `count` rows out of `total` is kept.
pub fn meets_min_support(count: usize, total: usize) -> (b: bool)
    ensures
        b == reaches_min_support(count as int, total as int),
{
    let c = count as u128;
    let t = total as u128;
    let d = MIN_SUPPORT_DENOMINATOR as u128;
    let n = MIN_SUPPORT_NUMERATOR as u128;
    assert(c * d <= 0xffff_ffff_ffff_ffff * 0xffff_ffff_ffff_ffffu128) by (nonlinear_arith)
        requires c <= 0xffff_ffff_ffff_ffff, d <= 0xffff_ffff_ffff_ffff;
    assert(t * n <= 0xffff_ffff_ffff_ffff * 0xffff_ffff_ffff_ffffu128) by (nonlinear_arith)
        requires t <= 0xffff_ffff_ffff_ffff, n <= 0xffff_ffff_ffff_ffff;
    total > 0 && c * d >= t * n
}

} // verus!
