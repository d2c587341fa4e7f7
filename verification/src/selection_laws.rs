use vstd::prelude::*;

use crate::combinatorics::{ordered_pairs, value_pairs};
use crate::laws::{
    law_distinct_values, law_ordered_pair_position, law_ordered_pairs_count, law_upper_pair_position,
    law_upper_pairs_count, law_value_pairs_at, law_value_pairs_count, ordered_index, upper_index,
};
use crate::mining::{first_degree, kept_first_degree, kept_values, pair_stats, value_stats, PairStatsView, ValueStatsView};
use crate::queries::{distinct_in_order, matching_rows, occurrences};
use crate::rules::{pair_rule_text, parse_rule, reaches_min_support};
use crate::superior::{
    combo_conditions, parsed_rules, part_conditions, piece_total, round_kept, round_stats, superior_rule_text,
};

verus! {

/// Whether the rows holding both values of a first-degree candidate are at
/// least half of the rows of a table that has rows.
pub open spec fn both_values_half(v: ValueStatsView) -> bool {
    v.5 > 0 && 2 * v.4 >= v.5
}

/// Whether the table has rows under a combined rule's first header, and the
/// rows meeting every condition of the rule are at least half of them.
pub open spec fn both_sides_half(
    df: Map<Seq<char>, Seq<Seq<char>>>,
    combo: Seq<Seq<Seq<Seq<char>>>>,
) -> bool {
    df[combo[0][0][0]].len() > 0 && 2 * matching_rows(df, combo_conditions(combo)).len()
        >= df[combo[0][0][0]].len()
}

/// The rule of the first two conditions of a combined rule.
pub open spec fn first_two_text(combo: Seq<Seq<Seq<Seq<char>>>>) -> Seq<char> {
    pair_rule_text(
        combo_conditions(combo)[0].0,
        combo_conditions(combo)[0].1,
        combo_conditions(combo)[1].0,
        combo_conditions(combo)[1].1,
    )
}

/// The first-degree rules kept between two headers are exactly the
/// candidates whose rows holding both values reach half of the rows, written
/// as `hx:vx-hy:vy`, in the order of the candidates.
pub proof fn law_kept_values_reach_half(hx: Seq<char>, hy: Seq<char>, values: Seq<ValueStatsView>)
    ensures
        kept_values(hx, hy, values) == values.filter(|v: ValueStatsView| both_values_half(v)).map_values(
            |v: ValueStatsView| pair_rule_text(hx, v.0, hy, v.1),
        ),
    decreases values.len(),
{
    broadcast use Seq::lemma_filter_push;

    let p = |v: ValueStatsView| both_values_half(v);
    let f = |v: ValueStatsView| pair_rule_text(hx, v.0, hy, v.1);
    if values.len() == 0 {
        reveal_with_fuel(Seq::filter, 1);
        assert(values.filter(p).map_values(f) =~= Seq::<Seq<char>>::empty());
    } else {
        law_kept_values_reach_half(hx, hy, values.drop_last());
        let init = values.drop_last();
        let v = values.last();
        assert(init.push(v) =~= values);
        assert(values.filter(p) == if p(v) { init.filter(p).push(v) } else { init.filter(p) });
        if p(v) {
            assert(init.filter(p).push(v).map_values(f) =~= init.filter(p).map_values(f).push(f(v)));
        }
    }
}

/// The first-degree rules kept over all pairs of headers are, pair after
/// pair, the candidates whose rows holding both values reach half of the
/// rows, each written as `hx:vx-hy:vy`.
pub proof fn law_kept_first_degree_reach_half(stats: Seq<PairStatsView>)
    ensures
        kept_first_degree(stats) == stats.map_values(
            |p: PairStatsView|
                p.2.filter(|v: ValueStatsView| both_values_half(v)).map_values(
                    |v: ValueStatsView| pair_rule_text(p.0, v.0, p.1, v.1),
                ),
        ).flatten(),
    decreases stats.len(),
{
    broadcast use Seq::lemma_flatten_push;

    let g = |p: PairStatsView|
        p.2.filter(|v: ValueStatsView| both_values_half(v)).map_values(
            |v: ValueStatsView| pair_rule_text(p.0, v.0, p.1, v.1),
        );
    if stats.len() == 0 {
        assert(stats.map_values(g) =~= Seq::<Seq<Seq<char>>>::empty());
    } else {
        law_kept_first_degree_reach_half(stats.drop_last());
        let last = stats.last();
        law_kept_values_reach_half(last.0, last.1, last.2);
        assert(stats.map_values(g) =~= stats.drop_last().map_values(g).push(g(last)));
    }
}

/// A rule is kept by a round exactly when the rows meeting both sides of its
/// combined rule reach half of the rows under the rule's first header; the
/// rule kept is that of the combined rule's first two conditions, in the
/// order of the combined rules.
pub proof fn law_round_kept_reach_half(
    df: Map<Seq<char>, Seq<Seq<char>>>,
    combos: Seq<Seq<Seq<Seq<Seq<char>>>>>,
)
    ensures
        round_kept(df, combos) == combos.filter(
            |c: Seq<Seq<Seq<Seq<char>>>>| both_sides_half(df, c),
        ).map_values(|c: Seq<Seq<Seq<Seq<char>>>>| first_two_text(c)),
    decreases combos.len(),
{
    broadcast use Seq::lemma_filter_push;

    let p = |c: Seq<Seq<Seq<Seq<char>>>>| both_sides_half(df, c);
    let f = |c: Seq<Seq<Seq<Seq<char>>>>| first_two_text(c);
    if combos.len() == 0 {
        reveal_with_fuel(Seq::filter, 1);
        assert(combos.filter(p).map_values(f) =~= Seq::<Seq<char>>::empty());
    } else {
        law_round_kept_reach_half(df, combos.drop_last());
        let init = combos.drop_last();
        let c = combos.last();
        assert(init.push(c) =~= combos);
        assert(combos.filter(p) == if p(c) { init.filter(p).push(c) } else { init.filter(p) });
        if p(c) {
            assert(init.filter(p).push(c).map_values(f) =~= init.filter(p).map_values(f).push(f(c)));
        }
    }
}

proof fn lemma_value_pair_from(a: Seq<Seq<char>>, b: Seq<Seq<char>>, k: int) -> (xy: (int, int))
    requires
        0 <= k < value_pairs(a, b).len(),
    ensures
        0 <= xy.0 < a.len(),
        0 <= xy.1 < b.len(),
        k == xy.0 * b.len() + xy.1,
        value_pairs(a, b)[k] == seq![a[xy.0], b[xy.1]],
    decreases a.len(),
{
    let init = value_pairs(a.drop_last(), b);
    law_value_pairs_count(a.drop_last(), b);
    if k < init.len() {
        let xy = lemma_value_pair_from(a.drop_last(), b, k);
        assert(a.drop_last()[xy.0] == a[xy.0]);
        xy
    } else {
        let y = k - init.len();
        assert(value_pairs(a, b)[k] == seq![a.last(), b[y]]);
        (a.len() - 1, y)
    }
}

/// The candidate rules between two headers pair the values that occur in
/// the first header's column with those that occur in the second's, over
/// every row of both columns: a pair of values has a candidate exactly when
/// each value occurs in its column, it has at most one, and each candidate
/// carries the occurrences of its two values, the rows holding both, and
/// the rows of the table.
pub proof fn law_first_degree_candidates(
    df: Map<Seq<char>, Seq<Seq<char>>>,
    headers: Seq<Seq<char>>,
    p: int,
    x: Seq<char>,
    y: Seq<char>,
)
    requires
        0 <= p < first_degree(df, headers).len(),
    ensures
        (exists|k: int|
            0 <= k < first_degree(df, headers)[p].2.len() && #[trigger] first_degree(df, headers)[p].2[k].0 == x
                && first_degree(df, headers)[p].2[k].1 == y) <==> (df[first_degree(df, headers)[p].0].contains(x)
            && df[first_degree(df, headers)[p].1].contains(y)),
        forall|k: int|
            0 <= k < first_degree(df, headers)[p].2.len() ==> #[trigger] first_degree(df, headers)[p].2[k] == (
                first_degree(df, headers)[p].2[k].0,
                first_degree(df, headers)[p].2[k].1,
                occurrences(df[first_degree(df, headers)[p].0], first_degree(df, headers)[p].2[k].0).len() as int,
                occurrences(df[first_degree(df, headers)[p].1], first_degree(df, headers)[p].2[k].1).len() as int,
                matching_rows(
                    df,
                    seq![
                        (first_degree(df, headers)[p].0, first_degree(df, headers)[p].2[k].0),
                        (first_degree(df, headers)[p].1, first_degree(df, headers)[p].2[k].1),
                    ],
                ).len() as int,
                df[first_degree(df, headers)[p].0].len() as int,
            ),
        forall|k1: int, k2: int|
            0 <= k1 < k2 < first_degree(df, headers)[p].2.len() ==> !(#[trigger] first_degree(df, headers)[p].2[k1].0
                == #[trigger] first_degree(df, headers)[p].2[k2].0 && first_degree(df, headers)[p].2[k1].1
                == first_degree(df, headers)[p].2[k2].1),
{
    let pair = ordered_pairs(headers, 0)[p];
    let st = first_degree(df, headers)[p];
    assert(st == pair_stats(df, pair));
    let a = distinct_in_order(df[pair[0]]);
    let b = distinct_in_order(df[pair[1]]);
    let vps = value_pairs(a, b);
    law_distinct_values(df[pair[0]]);
    law_distinct_values(df[pair[1]]);
    assert(st.2.len() == vps.len());
    assert forall|k: int| 0 <= k < st.2.len() implies #[trigger] st.2[k] == value_stats(df, st.0, st.1, st.2[k].0, st.2[k].1)
        && st.2[k].0 == vps[k][0] && st.2[k].1 == vps[k][1] by {
        assert(st.2[k] == value_stats(df, pair[0], pair[1], vps[k][0], vps[k][1]));
    }
    if exists|k: int| 0 <= k < st.2.len() && #[trigger] st.2[k].0 == x && st.2[k].1 == y {
        let k = choose|k: int| 0 <= k < st.2.len() && #[trigger] st.2[k].0 == x && st.2[k].1 == y;
        let xy = lemma_value_pair_from(a, b, k);
        assert(vps[k][0] == a[xy.0]);
        assert(vps[k][1] == b[xy.1]);
        assert(a.contains(x));
        assert(b.contains(y));
    }
    if df[st.0].contains(x) && df[st.1].contains(y) {
        assert(a.contains(x));
        assert(b.contains(y));
        let ix = choose|i: int| 0 <= i < a.len() && a[i] == x;
        let iy = choose|i: int| 0 <= i < b.len() && b[i] == y;
        law_value_pairs_at(a, b, ix, iy);
        let k = ix * b.len() + iy;
        assert(st.2[k].0 == x && st.2[k].1 == y);
    }
    assert forall|k1: int, k2: int| 0 <= k1 < k2 < st.2.len() implies !(#[trigger] st.2[k1].0 == #[trigger] st.2[k2].0
        && st.2[k1].1 == st.2[k2].1) by {
        let u = lemma_value_pair_from(a, b, k1);
        let w = lemma_value_pair_from(a, b, k2);
        if st.2[k1].0 == st.2[k2].0 && st.2[k1].1 == st.2[k2].1 {
            assert(a[u.0] == a[w.0]);
            assert(b[u.1] == b[w.1]);
            assert(u.0 == w.0);
            assert(u.1 == w.1);
        }
    }
}

/// A round over `n` rules has one combined rule for each pair of positions
/// `a < b`, at position `upper_index(n, a, b)`; it carries the text of the
/// two parsed rules, the rows meeting the conditions of rule `a`, of rule
/// `b`, and of both, and the rows of the table under rule `a`'s first
/// header.
pub proof fn law_round_stats_at(df: Map<Seq<char>, Seq<Seq<char>>>, rules: Seq<Seq<char>>, a: int, b: int)
    requires
        0 <= a < b < rules.len(),
    ensures
        2 * round_stats(df, rules).len() == rules.len() * (rules.len() - 1),
        0 <= upper_index(rules.len() as int, a, b) < round_stats(df, rules).len(),
        round_stats(df, rules)[upper_index(rules.len() as int, a, b)] == (
            superior_rule_text(seq![parse_rule(rules[a]), parse_rule(rules[b])]),
            matching_rows(df, part_conditions(parse_rule(rules[a]))).len() as int,
            matching_rows(df, part_conditions(parse_rule(rules[b]))).len() as int,
            matching_rows(df, part_conditions(parse_rule(rules[a])) + part_conditions(parse_rule(rules[b]))).len() as int,
            df[parse_rule(rules[a])[0][0]].len() as int,
        ),
{
    let parsed = parsed_rules(rules);
    law_upper_pairs_count(parsed);
    law_upper_pair_position(parsed, a, b);
    assert(parsed[a] == parse_rule(rules[a]));
    assert(parsed[b] == parse_rule(rules[b]));
    let k = upper_index(rules.len() as int, a, b);
    let combo = seq![parse_rule(rules[a]), parse_rule(rules[b])];
    assert(combo[0] == parse_rule(rules[a]));
    assert(combo[1] == parse_rule(rules[b]));
}

/// The candidate rules of the first degree over `n` headers come as one
/// entry per ordered pair of distinct header positions `i != j`, at position
/// `ordered_index(n, i, j)`, naming `headers[i]` first and `headers[j]`
/// second.
pub proof fn law_first_degree_pair_at(df: Map<Seq<char>, Seq<Seq<char>>>, headers: Seq<Seq<char>>, i: int, j: int)
    requires
        0 <= i < headers.len(),
        0 <= j < headers.len(),
        i != j,
    ensures
        first_degree(df, headers).len() == headers.len() * (headers.len() - 1),
        0 <= ordered_index(headers.len() as int, i, j) < first_degree(df, headers).len(),
        first_degree(df, headers)[ordered_index(headers.len() as int, i, j)].0 == headers[i],
        first_degree(df, headers)[ordered_index(headers.len() as int, i, j)].1 == headers[j],
{
    law_ordered_pairs_count(headers, 0);
    law_ordered_pair_position(headers, i, j);
    let k = ordered_index(headers.len() as int, i, j);
    assert(first_degree(df, headers)[k] == pair_stats(df, ordered_pairs(headers, 0)[k]));
}

/// The pieces counted over the parsed rules of a round are all their pieces
/// laid end to end.
pub proof fn law_piece_total_counts_pieces(parsed: Seq<Seq<Seq<Seq<char>>>>)
    ensures
        piece_total(parsed) == parsed.flatten().len(),
    decreases parsed.len(),
{
    broadcast use Seq::lemma_flatten_push;

    if parsed.len() == 0 {
    } else {
        law_piece_total_counts_pieces(parsed.drop_last());
        assert(parsed.drop_last().push(parsed.last()) =~= parsed);
    }
}

/// The minimum support is one half: `count` rows out of `total` reach it
/// exactly when there are rows and `count` is at least half of them.
pub proof fn law_min_support_is_half(count: int, total: int)
    ensures
        reaches_min_support(count, total) <==> (total > 0 && 2 * count >= total),
{
}

} // verus!
