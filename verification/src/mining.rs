use vstd::prelude::*;

use crate::combinatorics::{
    combine, lemma_pairs_name_headers, lemma_value_pairs_shape, ordered_pairs, value_pairs,
    values_combinations,
};
use crate::frame::DataFrame;
use crate::queries::{
    distinct_in_order, filter_occurrences, find_matching_rows, get_unique_values, matching_rows,
    occurrences,
};
use crate::rules::{meets_min_support, pair_rule, pair_rule_text, reaches_min_support};

verus! {

/// The counts behind one candidate rule `X => Y`.
#[derive(Clone, Copy, Debug, PartialEq, Eq, Structural)]
pub struct RuleCounts {
    /// Rows that meet the left side `X`.
    pub count_x: usize,
    /// Rows that meet the right side `Y`.
    pub count_y: usize,
    /// Rows that meet both sides.
    pub count_xy: usize,
    /// Rows of the table, counted under the rule's first header.
    pub total: usize,
}

/// A candidate rule pairing one value of the first header with one value of
/// the second.
#[derive(Debug)]
pub struct ValueStats {
    pub value_x: String,
    pub value_y: String,
    pub counts: RuleCounts,
}

/// The candidate rules between two headers.
#[derive(Debug)]
pub struct PairStats {
    pub header_x: String,
    pub header_y: String,
    pub values: Vec<ValueStats>,
}

/// A candidate rule as plain values: the two values and the four counts.
pub type ValueStatsView = (Seq<char>, Seq<char>, int, int, int, int);

/// The candidate rules between two headers as plain values.
pub type PairStatsView = (Seq<char>, Seq<char>, Seq<ValueStatsView>);

impl DeepView for ValueStats {
    type V = ValueStatsView;

    open spec fn deep_view(&self) -> ValueStatsView {
        (
            self.value_x@,
            self.value_y@,
            self.counts.count_x as int,
            self.counts.count_y as int,
            self.counts.count_xy as int,
            self.counts.total as int,
        )
    }
}

impl DeepView for PairStats {
    type V = PairStatsView;

    open spec fn deep_view(&self) -> PairStatsView {
        (self.header_x@, self.header_y@, self.values.deep_view())
    }
}

/// The candidate rule pairing `vx` under `hx` with `vy` under `hy`: the
/// occurrences of each value in its column, the rows holding both, and the
/// rows of the table.
pub open spec fn value_stats(
    df: Map<Seq<char>, Seq<Seq<char>>>,
    hx: Seq<char>,
    hy: Seq<char>,
    vx: Seq<char>,
    vy: Seq<char>,
) -> ValueStatsView {
    (
        vx,
        vy,
        occurrences(df[hx], vx).len() as int,
        occurrences(df[hy], vy).len() as int,
        matching_rows(df, seq![(hx, vx), (hy, vy)]).len() as int,
        df[hx].len() as int,
    )
}

/// The candidate rules between the two headers of `pair`, one for each pair
/// of their distinct values.
pub open spec fn pair_stats(df: Map<Seq<char>, Seq<Seq<char>>>, pair: Seq<Seq<char>>) -> PairStatsView {
    (
        pair[0],
        pair[1],
        value_pairs(distinct_in_order(df[pair[0]]), distinct_in_order(df[pair[1]])).map_values(
            |vp: Seq<Seq<char>>| value_stats(df, pair[0], pair[1], vp[0], vp[1]),
        ),
    )
}

/// The candidate rules of the first degree: for every ordered pair of
/// distinct headers, every pair of their values.
pub open spec fn first_degree(df: Map<Seq<char>, Seq<Seq<char>>>, headers: Seq<Seq<char>>) -> Seq<
    PairStatsView,
> {
    ordered_pairs(headers, 0).map_values(|p: Seq<Seq<char>>| pair_stats(df, p))
}

/// Computes the candidate rules of the first degree over `headers`.
pub fn first_degree_stats(df: &DataFrame, headers: &Vec<String>) -> (r: Vec<PairStats>)
    requires
        headers.len() < 2 || forall|i: int| 0 <= i < headers.len() ==> #[trigger] df@.contains_key(headers[i]@),
    ensures
        r.deep_view() == first_degree(df@, headers.deep_view()),
{
    let unique_values = get_unique_values(df);
    let mut result_headers: Vec<Vec<String>> = Vec::new();
    combine(headers, 0, &mut result_headers);
    assert(result_headers.deep_view() =~= ordered_pairs(headers.deep_view(), 0));
    proof { lemma_pairs_name_headers(headers.deep_view()); }
    let ghost pairs = result_headers.deep_view();
    let mut out: Vec<PairStats> = Vec::new();
    let mut p: usize = 0;
    while p < result_headers.len()
        invariant
            p <= result_headers.len(),
            pairs == result_headers.deep_view(),
            pairs == ordered_pairs(headers.deep_view(), 0),
            unique_values@ == df@.map_values(|col: Seq<Seq<char>>| distinct_in_order(col)),
            forall|k: int| 0 <= k < pairs.len() ==> (#[trigger] pairs[k]).len() == 2,
            headers.len() < 2 ==> pairs.len() == 0,
            forall|k: int, x: int| 0 <= k < pairs.len() && 0 <= x < 2 ==> headers.deep_view().contains(#[trigger] pairs[k][x]),
            headers.len() < 2 || forall|i: int| 0 <= i < headers.len() ==> #[trigger] df@.contains_key(headers[i]@),
            out.deep_view() == pairs.take(p as int).map_values(|q: Seq<Seq<char>>| pair_stats(df@, q)),
        decreases result_headers.len() - p,
    {
        let pair = &result_headers[p];
        assert(pair.deep_view() == pairs[p as int]);
        assert(pair.len() == 2);
        let hx = &pair[0];
        let hy = &pair[1];
        proof {
            assert(headers.deep_view().contains(pairs[p as int][0]));
            assert(headers.deep_view().contains(pairs[p as int][1]));
            let a = choose|i: int| 0 <= i < headers.len() && headers.deep_view()[i] == pairs[p as int][0];
            let b = choose|i: int| 0 <= i < headers.len() && headers.deep_view()[i] == pairs[p as int][1];
            assert(headers.len() >= 2);
            assert(df@.contains_key(headers[a]@));
            assert(df@.contains_key(headers[b]@));
        }
        let ux = unique_values.get(hx).unwrap();
        let uy = unique_values.get(hy).unwrap();
        let values = values_combinations(ux, uy);
        let ghost vps = values.deep_view();
        proof { lemma_value_pairs_shape(ux.deep_view(), uy.deep_view()); }
        let mut stats: Vec<ValueStats> = Vec::new();
        let mut v: usize = 0;
        while v < values.len()
            invariant
                v <= values.len(),
                vps == values.deep_view(),
                vps == value_pairs(distinct_in_order(df@[hx@]), distinct_in_order(df@[hy@])),
                forall|k: int| 0 <= k < vps.len() ==> (#[trigger] vps[k]).len() == 2,
                df@.contains_key(hx@),
                df@.contains_key(hy@),
                stats.deep_view() == vps.take(v as int).map_values(
                    |vp: Seq<Seq<char>>| value_stats(df@, hx@, hy@, vp[0], vp[1]),
                ),
            decreases values.len() - v,
        {
            let value = &values[v];
            assert(value.deep_view() == vps[v as int]);
            assert(value.len() == 2);
            let vx = &value[0];
            let vy = &value[1];
            let ocurrences_header_one = filter_occurrences(df, hx, vx);
            let ocurrences_header_two = filter_occurrences(df, hy, vy);
            let count_x = ocurrences_header_one.get(hx).unwrap().len();
            let count_y = ocurrences_header_two.get(hy).unwrap().len();
            let total = df.get(hx).unwrap().len();
            let conditions = vec![(hx.clone(), vx.clone()), (hy.clone(), vy.clone())];
            assert(conditions.deep_view() =~~= seq![(hx@, vx@), (hy@, vy@)]);
            let count_xy = find_matching_rows(df, conditions).len();
            let stat = ValueStats {
                value_x: vx.clone(),
                value_y: vy.clone(),
                counts: RuleCounts { count_x, count_y, count_xy, total },
            };
            assert(stat.deep_view() == value_stats(df@, hx@, hy@, vps[v as int][0], vps[v as int][1]));
            let ghost before = stats.deep_view();
            stats.push(stat);
            assert(stats.deep_view() == before.push(stat.deep_view()));
            assert(stats.deep_view() =~~= vps.take(v + 1).map_values(
                |vp: Seq<Seq<char>>| value_stats(df@, hx@, hy@, vp[0], vp[1]),
            ));
            v = v + 1;
        }
        assert(vps.take(vps.len() as int) =~= vps);
        let entry = PairStats { header_x: hx.clone(), header_y: hy.clone(), values: stats };
        assert(entry.deep_view() =~~= pair_stats(df@, pairs[p as int]));
        let ghost before = out.deep_view();
        out.push(entry);
        assert(out.deep_view() == before.push(entry.deep_view()));
        assert(out.deep_view() =~~= pairs.take(p + 1).map_values(|q: Seq<Seq<char>>| pair_stats(df@, q)));
        p = p + 1;
    }
    assert(pairs.take(pairs.len() as int) =~= pairs);
    out
}

/// The rules kept among the candidates between `hx` and `hy`: the text of
/// each one whose support reaches the minimum, in order.
pub open spec fn kept_values(hx: Seq<char>, hy: Seq<char>, values: Seq<ValueStatsView>) -> Seq<Seq<char>>
    decreases values.len(),
{
    if values.len() == 0 {
        Seq::empty()
    } else {
        let init = kept_values(hx, hy, values.drop_last());
        let v = values.last();
        if reaches_min_support(v.4, v.5) {
            init.push(pair_rule_text(hx, v.0, hy, v.1))
        } else {
            init
        }
    }
}

/// The rules of the first degree that are kept, in order.
pub open spec fn kept_first_degree(stats: Seq<PairStatsView>) -> Seq<Seq<char>>
    decreases stats.len(),
{
    if stats.len() == 0 {
        Seq::empty()
    } else {
        kept_first_degree(stats.drop_last()) + kept_values(stats.last().0, stats.last().1, stats.last().2)
    }
}

/// The texts of the candidate rules of the first degree whose support
/// reaches the minimum.
pub fn first_degree_rules(stats: &Vec<PairStats>) -> (r: Vec<String>)
    ensures
        r.deep_view() == kept_first_degree(stats.deep_view()),
{
    let mut reglas_asociacion: Vec<String> = Vec::new();
    let mut p: usize = 0;
    while p < stats.len()
        invariant
            p <= stats.len(),
            reglas_asociacion.deep_view() == kept_first_degree(stats.deep_view().take(p as int)),
        decreases stats.len() - p,
    {
        let pair = &stats[p];
        assert(pair.deep_view() == stats.deep_view()[p as int]);
        let ghost base = reglas_asociacion.deep_view();
        let mut v: usize = 0;
        assert(pair.values.deep_view().take(0) =~= Seq::<ValueStatsView>::empty());
        assert(reglas_asociacion.deep_view() =~= base + kept_values(
            pair.header_x@,
            pair.header_y@,
            pair.values.deep_view().take(0),
        ));
        while v < pair.values.len()
            invariant
                v <= pair.values.len(),
                reglas_asociacion.deep_view() == base + kept_values(
                    pair.header_x@,
                    pair.header_y@,
                    pair.values.deep_view().take(v as int),
                ),
            decreases pair.values.len() - v,
        {
            let value = &pair.values[v];
            assert(value.deep_view() == pair.values.deep_view()[v as int]);
            assert(pair.values.deep_view().take(v + 1).drop_last() =~= pair.values.deep_view().take(v as int));
            if meets_min_support(value.counts.count_xy, value.counts.total) {
                let regla = pair_rule(&pair.header_x, &value.value_x, &pair.header_y, &value.value_y);
                let ghost before = reglas_asociacion.deep_view();
                reglas_asociacion.push(regla);
                assert(reglas_asociacion.deep_view() == before.push(regla@));
            }
            assert(reglas_asociacion.deep_view() =~= base + kept_values(
                pair.header_x@,
                pair.header_y@,
                pair.values.deep_view().take(v + 1),
            ));
            v = v + 1;
        }
        assert(pair.values.deep_view().take(pair.values.len() as int) =~= pair.values.deep_view());
        assert(stats.deep_view().take(p + 1).drop_last() =~= stats.deep_view().take(p as int));
        assert(reglas_asociacion.deep_view() =~= kept_first_degree(stats.deep_view().take(p + 1)));
        p = p + 1;
    }
    assert(stats.deep_view().take(stats.len() as int) =~= stats.deep_view());
    reglas_asociacion
}

} // verus!
