use vstd::prelude::*;

use crate::combinatorics::{ordered_pairs, ordered_pairs_upto, row_pairs, upper_pairs, upper_pairs_upto, value_pairs};
use crate::queries::{
    all_headers_present, condition_holds, distinct_in_order, index_range, matching_rows, occurrences, row_matches,
};
use crate::csv_input::{add_record, add_records};
use crate::frame::push_entry;
use crate::mining::value_stats;
use crate::superior::{combo_stats, part_conditions};
use crate::rules::{pair_rule_text, parse_rule};
use crate::text::{lemma_split_concat, lemma_split_without_sep, split_on};

verus! {

/// The distinct values of a column hold each value of the column exactly
/// once: nothing repeats, and a value occurs in them exactly when it occurs
/// in the column.
pub proof fn law_distinct_values(s: Seq<Seq<char>>)
    ensures
        distinct_in_order(s).no_duplicates(),
        forall|x: Seq<char>| #[trigger] distinct_in_order(s).contains(x) <==> s.contains(x),
    decreases s.len(),
{
    if s.len() > 0 {
        law_distinct_values(s.drop_last());
        let init = distinct_in_order(s.drop_last());
        assert forall|x: Seq<char>| #[trigger] distinct_in_order(s).contains(x) <==> s.contains(x) by {
            if s.drop_last().contains(x) {
                let k = choose|k: int| 0 <= k < s.drop_last().len() && s.drop_last()[k] == x;
                assert(s[k] == x);
            }
            if s.contains(x) {
                let k = choose|k: int| 0 <= k < s.len() && s[k] == x;
                if k < s.len() - 1 {
                    assert(s.drop_last()[k] == x);
                } else {
                    assert(x == s.last());
                }
            }
            if !init.contains(s.last()) {
                if distinct_in_order(s).contains(x) {
                    let k = choose|k: int| 0 <= k < init.push(s.last()).len() && init.push(s.last())[k] == x;
                    if k < init.len() {
                        assert(init[k] == x);
                    }
                }
                if init.contains(x) {
                    let k = choose|k: int| 0 <= k < init.len() && init[k] == x;
                    assert(init.push(s.last())[k] == x);
                }
                assert(init.push(s.last())[init.len() as int] == s.last());
            }
        }
    }
}

/// The distinct values of a column come in the order in which they first
/// occur: wherever a later distinct value occurs in the column, an earlier
/// one has already occurred before it.
pub proof fn law_distinct_values_first_seen(s: Seq<Seq<char>>)
    ensures
        forall|a: int, b: int, i: int|
            #![trigger s[i], distinct_in_order(s)[b], distinct_in_order(s)[a]]
            0 <= a < b < distinct_in_order(s).len() && 0 <= i < s.len() && s[i] == distinct_in_order(s)[b]
                ==> s.take(i).contains(distinct_in_order(s)[a]),
    decreases s.len(),
{
    if s.len() > 0 {
        let init = s.drop_last();
        let x = s.last();
        let di = distinct_in_order(init);
        let d = distinct_in_order(s);
        law_distinct_values_first_seen(init);
        law_distinct_values(init);
        assert forall|a: int, b: int, i: int|
            #![trigger s[i], d[b], d[a]]
            0 <= a < b < d.len() && 0 <= i < s.len() && s[i] == d[b] implies s.take(i).contains(d[a]) by {
            assert(d[a] == di[a]);
            if i < init.len() {
                assert(s[i] == init[i]);
                if b < di.len() {
                    assert(d[b] == di[b]);
                    assert(init.take(i).contains(di[a]));
                    let j = choose|j: int| 0 <= j < i && #[trigger] init.take(i)[j] == di[a];
                    assert(s.take(i)[j] == init.take(i)[j]);
                } else {
                    assert(d[b] == x);
                    assert(init.contains(x));
                    assert(false);
                }
            } else {
                if b < di.len() {
                    assert(d[b] == di[b]);
                    assert(di.contains(x));
                    assert(init.contains(x));
                    let i0 = choose|i0: int| 0 <= i0 < init.len() && init[i0] == x;
                    assert(init[i0] == di[b]);
                    assert(init.take(i0).contains(di[a]));
                    let j = choose|j: int| 0 <= j < i0 && #[trigger] init.take(i0)[j] == di[a];
                    assert(s.take(i)[j] == init.take(i0)[j]);
                } else {
                    assert(di.contains(di[a]));
                    assert(init.contains(di[a]));
                    let j = choose|j: int| 0 <= j < init.len() && init[j] == di[a];
                    assert(s.take(i)[j] == init[j]);
                }
            }
        }
    }
}

proof fn lemma_row_pairs_len(e: Seq<Seq<char>>, start: int, i: int, j_end: int)
    requires
        0 <= start <= i < e.len(),
        start <= j_end <= e.len(),
    ensures
        row_pairs(e, start, i, j_end).len() == if i < j_end { j_end - start - 1 } else { j_end - start },
    decreases j_end - start,
{
    if j_end > start {
        lemma_row_pairs_len(e, start, i, j_end - 1);
    }
}

proof fn lemma_ordered_pairs_upto_len(e: Seq<Seq<char>>, start: int, i_end: int)
    requires
        0 <= start <= i_end <= e.len(),
    ensures
        ordered_pairs_upto(e, start, i_end).len() == (i_end - start) * (e.len() - start - 1),
    decreases i_end - start,
{
    if i_end > start {
        lemma_ordered_pairs_upto_len(e, start, i_end - 1);
        lemma_row_pairs_len(e, start, i_end - 1, e.len() as int);
        let k = i_end - 1 - start;
        let m = e.len() - start - 1;
        assert(ordered_pairs_upto(e, start, i_end).len() == ordered_pairs_upto(e, start, i_end - 1).len()
            + row_pairs(e, start, i_end - 1, e.len() as int).len());
        assert(k * m + m == (k + 1) * m) by (nonlinear_arith);
        assert((i_end - start) * (e.len() - start - 1) == (k + 1) * m);
    } else {
        let m = e.len() - start - 1;
        assert(0 * m == 0) by (nonlinear_arith);
        assert((i_end - start) * (e.len() - start - 1) == 0 * m);
    }
}

/// The ordered pairs of distinct positions from `start` on number
/// `(n - start) * (n - start - 1)`.
pub proof fn law_ordered_pairs_count(e: Seq<Seq<char>>, start: int)
    requires
        0 <= start <= e.len(),
    ensures
        ordered_pairs(e, start).len() == (e.len() - start) * (e.len() - start - 1),
{
    lemma_ordered_pairs_upto_len(e, start, e.len() as int);
}

/// Where the ordered pair of positions `i != j` stands among the ordered
/// pairs of `n` elements: after the `n - 1` pairs of each earlier first
/// position, at the place of `j` among the positions other than `i`.
pub open spec fn ordered_index(n: int, i: int, j: int) -> int {
    i * (n - 1) + if j < i {
        j
    } else {
        j - 1
    }
}

proof fn lemma_row_pairs_at(e: Seq<Seq<char>>, i: int, j_end: int, j: int)
    requires
        0 <= i < e.len(),
        0 <= j < j_end <= e.len(),
        j != i,
    ensures
        (if j < i { j } else { j - 1 }) < row_pairs(e, 0, i, j_end).len(),
        row_pairs(e, 0, i, j_end)[if j < i { j } else { j - 1 }] == seq![e[i], e[j]],
    decreases j_end,
{
    lemma_row_pairs_len(e, 0, i, j_end - 1);
    let init = row_pairs(e, 0, i, j_end - 1);
    if j < j_end - 1 {
        lemma_row_pairs_at(e, i, j_end - 1, j);
        if i != j_end - 1 {
            assert(init.push(seq![e[i], e[j_end - 1]])[if j < i { j } else { j - 1 }] == init[if j < i { j } else { j - 1 }]);
        }
    } else {
        assert(row_pairs(e, 0, i, j_end) == init.push(seq![e[i], e[j]]));
    }
}

proof fn lemma_row_pairs_index_of(e: Seq<Seq<char>>, i: int, j_end: int, k: int) -> (j: int)
    requires
        0 <= i < e.len(),
        0 <= j_end <= e.len(),
        0 <= k < row_pairs(e, 0, i, j_end).len(),
    ensures
        0 <= j < j_end,
        j != i,
        k == (if j < i { j } else { j - 1 }),
        row_pairs(e, 0, i, j_end)[k] == seq![e[i], e[j]],
    decreases j_end,
{
    lemma_row_pairs_len(e, 0, i, j_end - 1);
    let init = row_pairs(e, 0, i, j_end - 1);
    if k < init.len() {
        let j = lemma_row_pairs_index_of(e, i, j_end - 1, k);
        if i != j_end - 1 {
            assert(init.push(seq![e[i], e[j_end - 1]])[k] == init[k]);
        }
        j
    } else {
        assert(i != j_end - 1);
        j_end - 1
    }
}

proof fn lemma_ordered_pairs_upto_prefix(e: Seq<Seq<char>>, a: int, b: int, k: int)
    requires
        0 <= a <= b <= e.len(),
        0 <= k < ordered_pairs_upto(e, 0, a).len(),
    ensures
        k < ordered_pairs_upto(e, 0, b).len(),
        ordered_pairs_upto(e, 0, b)[k] == ordered_pairs_upto(e, 0, a)[k],
    decreases b - a,
{
    if b > a {
        lemma_ordered_pairs_upto_prefix(e, a, b - 1, k);
        let x = ordered_pairs_upto(e, 0, b - 1);
        assert(ordered_pairs_upto(e, 0, b)[k] == x[k]);
    }
}

proof fn lemma_ordered_pairs_upto_index_of(e: Seq<Seq<char>>, i_end: int, k: int) -> (ij: (int, int))
    requires
        0 <= i_end <= e.len(),
        0 <= k < ordered_pairs_upto(e, 0, i_end).len(),
    ensures
        0 <= ij.0 < e.len(),
        0 <= ij.1 < e.len(),
        ij.0 != ij.1,
        k == ordered_index(e.len() as int, ij.0, ij.1),
        ordered_pairs_upto(e, 0, i_end)[k] == seq![e[ij.0], e[ij.1]],
    decreases i_end,
{
    let a = ordered_pairs_upto(e, 0, i_end - 1);
    if k < a.len() {
        lemma_ordered_pairs_upto_index_of(e, i_end - 1, k)
    } else {
        let i = i_end - 1;
        lemma_ordered_pairs_upto_len(e, 0, i);
        let j = lemma_row_pairs_index_of(e, i, e.len() as int, k - a.len());
        (i, j)
    }
}

/// Among the ordered pairs of `n` elements, the pair of the elements at
/// positions `i != j` stands at position `ordered_index(n, i, j)`: every
/// ordered pair of distinct positions is made.
pub proof fn law_ordered_pair_position(e: Seq<Seq<char>>, i: int, j: int)
    requires
        0 <= i < e.len(),
        0 <= j < e.len(),
        i != j,
    ensures
        0 <= ordered_index(e.len() as int, i, j) < ordered_pairs(e, 0).len(),
        ordered_pairs(e, 0)[ordered_index(e.len() as int, i, j)] == seq![e[i], e[j]],
{
    lemma_ordered_pairs_upto_len(e, 0, i);
    lemma_row_pairs_at(e, i, e.len() as int, j);
    let k = ordered_index(e.len() as int, i, j);
    assert(ordered_pairs_upto(e, 0, i + 1)[k] == seq![e[i], e[j]]);
    lemma_ordered_pairs_upto_prefix(e, i + 1, e.len() as int, k);
}

/// Of headers that are all different, each ordered pair of positions
/// `i != j` is made exactly once: at position `ordered_index(n, i, j)` and
/// nowhere else.
pub proof fn law_ordered_pair_once(e: Seq<Seq<char>>, i: int, j: int)
    requires
        0 <= i < e.len(),
        0 <= j < e.len(),
        i != j,
        e.no_duplicates(),
    ensures
        ordered_pairs(e, 0)[ordered_index(e.len() as int, i, j)] == seq![e[i], e[j]],
        forall|k: int|
            0 <= k < ordered_pairs(e, 0).len() && #[trigger] ordered_pairs(e, 0)[k] == seq![e[i], e[j]] ==> k
                == ordered_index(e.len() as int, i, j),
{
    law_ordered_pair_position(e, i, j);
    assert forall|k: int|
        0 <= k < ordered_pairs(e, 0).len() && #[trigger] ordered_pairs(e, 0)[k] == seq![e[i], e[j]] implies k
            == ordered_index(e.len() as int, i, j) by {
        let ij = lemma_ordered_pairs_upto_index_of(e, e.len() as int, k);
        assert(seq![e[ij.0], e[ij.1]][0] == seq![e[i], e[j]][0]);
        assert(seq![e[ij.0], e[ij.1]][1] == seq![e[i], e[j]][1]);
    }
}

/// There are as many value pairs as the product of the numbers of values.
pub proof fn law_value_pairs_count(a: Seq<Seq<char>>, b: Seq<Seq<char>>)
    ensures
        value_pairs(a, b).len() == a.len() * b.len(),
    decreases a.len(),
{
    if a.len() > 0 {
        law_value_pairs_count(a.drop_last(), b);
        let k = a.len() - 1;
        let m = b.len();
        assert(k * m + m == (k + 1) * m) by (nonlinear_arith);
    }
}

/// The value pair at position `x * |b| + y` pairs `a[x]` with `b[y]`.
pub proof fn law_value_pairs_at(a: Seq<Seq<char>>, b: Seq<Seq<char>>, x: int, y: int)
    requires
        0 <= x < a.len(),
        0 <= y < b.len(),
    ensures
        x * b.len() + y < value_pairs(a, b).len(),
        value_pairs(a, b)[x * b.len() + y] == seq![a[x], b[y]],
    decreases a.len(),
{
    law_value_pairs_count(a.drop_last(), b);
    law_value_pairs_count(a, b);
    let m = b.len() as int;
    let k = a.len() - 1;
    assert(x * m + y < a.len() * m) by (nonlinear_arith)
        requires 0 <= x < a.len(), 0 <= y < m;
    if x < a.len() - 1 {
        law_value_pairs_at(a.drop_last(), b, x, y);
        assert(a.drop_last()[x] == a[x]);
    } else {
        assert(x * m == k * m);
        assert(value_pairs(a, b)[x * m + y] == b.map_values(|v: Seq<char>| seq![a.last(), v])[y]);
    }
}

proof fn lemma_upper_pairs_upto_len<A>(r: Seq<A>, i_end: int)
    requires
        0 <= i_end <= r.len(),
    ensures
        2 * upper_pairs_upto(r, i_end).len() == i_end * (2 * r.len() - i_end - 1),
    decreases i_end,
{
    if i_end > 0 {
        lemma_upper_pairs_upto_len(r, i_end - 1);
        let k = i_end - 1;
        let n = r.len() as int;
        assert(upper_pairs_upto(r, i_end).len() == upper_pairs_upto(r, i_end - 1).len() + (n - i_end));
        assert(k * (2 * n - k - 1) + 2 * (n - i_end) == i_end * (2 * n - i_end - 1)) by (nonlinear_arith)
            requires k == i_end - 1;
    } else {
        let m = 2 * r.len() - i_end - 1;
        assert(0 * m == 0) by (nonlinear_arith);
        assert(i_end * (2 * r.len() - i_end - 1) == 0 * m);
    }
}

/// Pairing each rule with each rule after it gives `n * (n - 1) / 2`
/// pairs.
pub proof fn law_upper_pairs_count<A>(r: Seq<A>)
    ensures
        2 * upper_pairs(r).len() == r.len() * (r.len() - 1),
{
    lemma_upper_pairs_upto_len(r, r.len() as int);
}

/// Where the pair of positions `i < j` stands among the pairs of `n` rules:
/// after the `n - 1`, `n - 2`, ... pairs of each earlier first position, and
/// `j - i - 1` places into the pairs of `i`.
pub open spec fn upper_index(n: int, i: int, j: int) -> int {
    (i * (2 * n - i - 1)) / 2 + (j - i - 1)
}

proof fn lemma_upper_pairs_upto_prefix<A>(r: Seq<A>, a: int, b: int, k: int)
    requires
        0 <= a <= b <= r.len(),
        0 <= k < upper_pairs_upto(r, a).len(),
    ensures
        k < upper_pairs_upto(r, b).len(),
        upper_pairs_upto(r, b)[k] == upper_pairs_upto(r, a)[k],
    decreases b - a,
{
    if b > a {
        lemma_upper_pairs_upto_prefix(r, a, b - 1, k);
        let x = upper_pairs_upto(r, b - 1);
        assert(upper_pairs_upto(r, b)[k] == x[k]);
    }
}

proof fn lemma_upper_pairs_upto_index_of<A>(r: Seq<A>, i_end: int, k: int) -> (ij: (int, int))
    requires
        0 <= i_end <= r.len(),
        0 <= k < upper_pairs_upto(r, i_end).len(),
    ensures
        0 <= ij.0 < ij.1 < r.len(),
        k == upper_index(r.len() as int, ij.0, ij.1),
        upper_pairs_upto(r, i_end)[k] == seq![r[ij.0], r[ij.1]],
    decreases i_end,
{
    let n = r.len() as int;
    let a = upper_pairs_upto(r, i_end - 1);
    if k < a.len() {
        lemma_upper_pairs_upto_index_of(r, i_end - 1, k)
    } else {
        let t = k - a.len();
        let i = i_end - 1;
        lemma_upper_pairs_upto_len(r, i);
        let l = a.len() as int;
        assert((i * (2 * n - i - 1)) / 2 == l) by (nonlinear_arith)
            requires 2 * l == i * (2 * n - i - 1);
        assert(upper_pairs_upto(r, i_end)[k] == seq![r[i], r[i_end + t]]);
        (i, i_end + t)
    }
}

/// Among the pairs of `n` rules, the pair of the rules at positions
/// `i < j` stands at position `upper_index(n, i, j)`: every pair of
/// positions is paired.
pub proof fn law_upper_pair_position<A>(r: Seq<A>, i: int, j: int)
    requires
        0 <= i < j < r.len(),
    ensures
        0 <= upper_index(r.len() as int, i, j) < upper_pairs(r).len(),
        upper_pairs(r)[upper_index(r.len() as int, i, j)] == seq![r[i], r[j]],
{
    let n = r.len() as int;
    lemma_upper_pairs_upto_len(r, i);
    let l = upper_pairs_upto(r, i).len() as int;
    assert((i * (2 * n - i - 1)) / 2 == l) by (nonlinear_arith)
        requires 2 * l == i * (2 * n - i - 1);
    let k = l + (j - i - 1);
    assert(upper_pairs_upto(r, i + 1)[k] == seq![r[i], r[j]]);
    lemma_upper_pairs_upto_prefix(r, i + 1, n, k);
}

/// Of rules that are all different, each pair of positions `i < j` is
/// paired exactly once: at position `upper_index(n, i, j)` and nowhere else.
pub proof fn law_upper_pair_once<A>(r: Seq<A>, i: int, j: int)
    requires
        0 <= i < j < r.len(),
        r.no_duplicates(),
    ensures
        upper_pairs(r)[upper_index(r.len() as int, i, j)] == seq![r[i], r[j]],
        forall|k: int|
            0 <= k < upper_pairs(r).len() && #[trigger] upper_pairs(r)[k] == seq![r[i], r[j]] ==> k
                == upper_index(r.len() as int, i, j),
{
    law_upper_pair_position(r, i, j);
    assert forall|k: int|
        0 <= k < upper_pairs(r).len() && #[trigger] upper_pairs(r)[k] == seq![r[i], r[j]] implies k
            == upper_index(r.len() as int, i, j) by {
        let ij = lemma_upper_pairs_upto_index_of(r, r.len() as int, k);
        assert(seq![r[ij.0], r[ij.1]][0] == seq![r[i], r[j]][0]);
        assert(seq![r[ij.0], r[ij.1]][1] == seq![r[i], r[j]][1]);
    }
}

/// Of rules that are all different, no pair of rules is made twice.
pub proof fn law_upper_pairs_distinct<A>(r: Seq<A>)
    requires
        r.no_duplicates(),
    ensures
        upper_pairs(r).no_duplicates(),
{
    assert forall|k1: int, k2: int|
        0 <= k1 < upper_pairs(r).len() && 0 <= k2 < upper_pairs(r).len() && k1 != k2 implies
        upper_pairs(r)[k1] != upper_pairs(r)[k2] by {
        let a = lemma_upper_pairs_upto_index_of(r, r.len() as int, k1);
        let b = lemma_upper_pairs_upto_index_of(r, r.len() as int, k2);
        if upper_pairs(r)[k1] == upper_pairs(r)[k2] {
            assert(seq![r[a.0], r[a.1]][0] == seq![r[b.0], r[b.1]][0]);
            assert(seq![r[a.0], r[a.1]][1] == seq![r[b.0], r[b.1]][1]);
        }
    }
}

/// The text of a first-degree rule parses back into its two header-value
/// pieces, when no header or value holds `-` or `:`.
pub proof fn law_rule_text_round_trip(h0: Seq<char>, v0: Seq<char>, h1: Seq<char>, v1: Seq<char>)
    requires
        !h0.contains('-') && !h0.contains(':'),
        !v0.contains('-') && !v0.contains(':'),
        !h1.contains('-') && !h1.contains(':'),
        !v1.contains('-') && !v1.contains(':'),
    ensures
        parse_rule(pair_rule_text(h0, v0, h1, v1)) == seq![seq![h0, v0], seq![h1, v1]],
{
    let p0 = h0 + seq![':'] + v0;
    let p1 = h1 + seq![':'] + v1;
    assert(pair_rule_text(h0, v0, h1, v1) =~= p0 + seq!['-'] + p1);
    lemma_split_concat(p0, p1, '-');
    assert(!p0.contains('-')) by {
        if p0.contains('-') {
            let k = choose|k: int| 0 <= k < p0.len() && p0[k] == '-';
            if k < h0.len() {
                assert(h0[k] == '-');
            } else if k > h0.len() {
                assert(v0[k - h0.len() - 1] == '-');
            }
        }
    }
    assert(!p1.contains('-')) by {
        if p1.contains('-') {
            let k = choose|k: int| 0 <= k < p1.len() && p1[k] == '-';
            if k < h1.len() {
                assert(h1[k] == '-');
            } else if k > h1.len() {
                assert(v1[k - h1.len() - 1] == '-');
            }
        }
    }
    lemma_split_without_sep(p0, '-');
    lemma_split_without_sep(p1, '-');
    lemma_split_concat(h0, v0, ':');
    lemma_split_concat(h1, v1, ':');
    lemma_split_without_sep(h0, ':');
    lemma_split_without_sep(v0, ':');
    lemma_split_without_sep(h1, ':');
    lemma_split_without_sep(v1, ':');
    assert(split_on(pair_rule_text(h0, v0, h1, v1), '-') =~= seq![p0, p1]);
    assert(parse_rule(pair_rule_text(h0, v0, h1, v1)) =~~= seq![seq![h0, v0], seq![h1, v1]]);
}

proof fn lemma_range_filter(n: nat, p: spec_fn(usize) -> bool)
    requires
        n <= usize::MAX + 1,
    ensures
        forall|x: usize| #[trigger] index_range(n).filter(p).contains(x) <==> (x < n && p(x)),
        forall|a: int, b: int|
            0 <= a < b < index_range(n).filter(p).len() ==> #[trigger] index_range(n).filter(p)[a]
                < #[trigger] index_range(n).filter(p)[b],
        forall|a: int|
            0 <= a < index_range(n).filter(p).len() ==> #[trigger] index_range(n).filter(p)[a] < n,
    decreases n,
{
    reveal_with_fuel(Seq::filter, 1);
    let r = index_range(n);
    if n > 0 {
        let m = (n - 1) as nat;
        lemma_range_filter(m, p);
        let r0 = index_range(m);
        assert(r.drop_last() =~= r0);
        assert(r.last() == m as usize);
        let f0 = r0.filter(p);
        let f = r.filter(p);
        if p(m as usize) {
            assert(f == f0.push(m as usize));
            assert forall|x: usize| #[trigger] f.contains(x) <==> (x < n && p(x)) by {
                if f.contains(x) {
                    let k = choose|k: int| 0 <= k < f.len() && f[k] == x;
                    if k < f0.len() {
                        assert(f0[k] == x);
                        assert(f0.contains(x));
                    }
                }
                if x < n && p(x) {
                    if x < m {
                        assert(f0.contains(x));
                        let k = choose|k: int| 0 <= k < f0.len() && f0[k] == x;
                        assert(f[k] == x);
                    } else {
                        assert(f[f0.len() as int] == x);
                    }
                }
            }
            assert forall|a: int, b: int| 0 <= a < b < f.len() implies #[trigger] f[a] < #[trigger] f[b] by {
                if b < f0.len() {
                    assert(f[a] == f0[a] && f[b] == f0[b]);
                } else {
                    assert(f[a] == f0[a]);
                }
            }
            assert forall|a: int| 0 <= a < f.len() implies #[trigger] f[a] < n by {
                if a < f0.len() {
                    assert(f[a] == f0[a]);
                }
            }
        } else {
            assert(f == f0);
            assert forall|x: usize| #[trigger] f.contains(x) <==> (x < n && p(x)) by {
                if f.contains(x) {
                    assert(f0.contains(x));
                }
                if x < n && p(x) {
                    assert(x != m);
                    assert(f0.contains(x));
                }
            }
        }
    } else {
        assert(r.filter(p) =~= Seq::<usize>::empty());
    }
}

/// The rows found for a list of conditions, all naming columns of the table,
/// are exactly the rows of the first condition's column that meet every
/// condition, each once and in increasing order.
pub proof fn law_matching_rows_exact(df: Map<Seq<char>, Seq<Seq<char>>>, conds: Seq<(Seq<char>, Seq<char>)>)
    requires
        conds.len() > 0,
        all_headers_present(df, conds),
        df[conds[0].0].len() <= usize::MAX,
    ensures
        forall|x: usize|
            #[trigger] matching_rows(df, conds).contains(x) <==> (x < df[conds[0].0].len() && row_matches(
                df,
                conds,
                x as int,
            )),
        forall|a: int, b: int|
            0 <= a < b < matching_rows(df, conds).len() ==> #[trigger] matching_rows(df, conds)[a]
                < #[trigger] matching_rows(df, conds)[b],
        matching_rows(df, conds).no_duplicates(),
{
    let p = |i: usize| row_matches(df, conds, i as int);
    lemma_range_filter(df[conds[0].0].len(), p);
    let m = matching_rows(df, conds);
    assert forall|a: int, b: int| 0 <= a < m.len() && 0 <= b < m.len() && a != b implies m[a] != m[b] by {
        if a < b {
            assert(m[a] < m[b]);
        } else {
            assert(m[b] < m[a]);
        }
    }
}

/// A row met by one condition on a column is exactly an occurrence of the
/// value in that column: counting occurrences and counting the rows found
/// for the single condition agree.
pub proof fn law_occurrences_are_matching_rows(
    df: Map<Seq<char>, Seq<Seq<char>>>,
    header: Seq<char>,
    value: Seq<char>,
)
    requires
        df.contains_key(header),
        df[header].len() <= usize::MAX,
    ensures
        occurrences(df[header], value).len() == matching_rows(df, seq![(header, value)]).len(),
{
    let col = df[header];
    let conds = seq![(header, value)];
    assert(all_headers_present(df, conds)) by {
        assert forall|k: int| 0 <= k < conds.len() implies #[trigger] df.contains_key(conds[k].0) by {
            assert(k == 0);
        }
    }
    lemma_prefix_counts(df, header, value, col.len() as int);
    assert(col.take(col.len() as int) =~= col);
    assert(conds[0].0 == header);
    assert(matching_rows(df, conds) == index_range(col.len()).filter(|i: usize| row_matches(df, conds, i as int)));
}

proof fn lemma_prefix_counts(df: Map<Seq<char>, Seq<Seq<char>>>, header: Seq<char>, value: Seq<char>, k: int)
    requires
        df.contains_key(header),
        0 <= k <= df[header].len(),
        df[header].len() <= usize::MAX,
    ensures
        occurrences(df[header].take(k), value).len() == index_range(k as nat).filter(
            |i: usize| row_matches(df, seq![(header, value)], i as int),
        ).len(),
    decreases k,
{
    reveal_with_fuel(Seq::filter, 1);
    let col = df[header];
    let conds = seq![(header, value)];
    if k > 0 {
        lemma_prefix_counts(df, header, value, k - 1);
        assert(col.take(k).drop_last() =~= col.take(k - 1));
        assert(index_range(k as nat).drop_last() =~= index_range((k - 1) as nat));
        let i = (k - 1) as usize;
        assert(index_range(k as nat).last() == i);
        assert(row_matches(df, conds, i as int) == (col[k - 1] == value)) by {
            assert(conds[0] == (header, value));
            assert(condition_holds(df, conds[0], i as int) == (col[k - 1] == value));
            if col[k - 1] == value {
                assert forall|j: int| 0 <= j < conds.len() implies #[trigger] condition_holds(df, conds[j], i as int) by {
                    assert(j == 0);
                }
            }
        }
    } else {
        assert(occurrences(col.take(0), value) =~= Seq::<Seq<char>>::empty());
    }
}

/// A row that meets the conditions of both sides meets each side, so the
/// rows meeting both are never more than the rows meeting either side.
pub proof fn law_conjunction_narrows(
    df: Map<Seq<char>, Seq<Seq<char>>>,
    a: Seq<(Seq<char>, Seq<char>)>,
    b: Seq<(Seq<char>, Seq<char>)>,
)
    requires
        a.len() > 0,
        b.len() > 0,
        forall|h: Seq<char>| #[trigger] df.contains_key(h) ==> df[h].len() <= usize::MAX,
    ensures
        forall|x: usize|
            #[trigger] matching_rows(df, a + b).contains(x) ==> matching_rows(df, a).contains(x)
                && matching_rows(df, b).contains(x),
        matching_rows(df, a + b).len() <= matching_rows(df, a).len(),
        matching_rows(df, a + b).len() <= matching_rows(df, b).len(),
{
    broadcast use vstd::set::group_set_axioms, vstd::seq_lib::seq_to_set_is_finite;
    let ab = a + b;
    if !all_headers_present(df, ab) {
        assert(matching_rows(df, ab) =~= Seq::<usize>::empty());
        return;
    }
    assert(all_headers_present(df, a)) by {
        assert forall|k: int| 0 <= k < a.len() implies #[trigger] df.contains_key(a[k].0) by {
            assert(ab[k] == a[k]);
        }
    }
    assert(all_headers_present(df, b)) by {
        assert forall|k: int| 0 <= k < b.len() implies #[trigger] df.contains_key(b[k].0) by {
            assert(ab[a.len() + k] == b[k]);
        }
    }
    assert(ab[0] == a[0]);
    assert(df.contains_key(a[0].0));
    assert(df.contains_key(b[0].0));
    law_matching_rows_exact(df, ab);
    law_matching_rows_exact(df, a);
    law_matching_rows_exact(df, b);
    let mab = matching_rows(df, ab);
    let ma = matching_rows(df, a);
    let mb = matching_rows(df, b);
    assert forall|x: usize| #[trigger] mab.contains(x) implies ma.contains(x) && mb.contains(x) by {
        assert(row_matches(df, ab, x as int));
        assert forall|k: int| 0 <= k < a.len() implies #[trigger] condition_holds(df, a[k], x as int) by {
            assert(ab[k] == a[k]);
            assert(condition_holds(df, ab[k], x as int));
        }
        assert forall|k: int| 0 <= k < b.len() implies #[trigger] condition_holds(df, b[k], x as int) by {
            assert(ab[a.len() + k] == b[k]);
            assert(condition_holds(df, ab[a.len() + k], x as int));
        }
        assert(condition_holds(df, b[0], x as int));
    }
    assert(mab.to_set().subset_of(ma.to_set()));
    assert(mab.to_set().subset_of(mb.to_set()));
    mab.unique_seq_to_set();
    ma.unique_seq_to_set();
    mb.unique_seq_to_set();
    vstd::set_lib::lemma_len_subset(mab.to_set(), ma.to_set());
    vstd::set_lib::lemma_len_subset(mab.to_set(), mb.to_set());
}

/// The column under `h`, or no values when there is none.
pub open spec fn column_or_empty(m: Map<Seq<char>, Seq<Seq<char>>>, h: Seq<char>) -> Seq<Seq<char>> {
    if m.contains_key(h) {
        m[h]
    } else {
        Seq::empty()
    }
}

proof fn lemma_add_record_prefix(
    m: Map<Seq<char>, Seq<Seq<char>>>,
    headers: Seq<Seq<char>>,
    rec: Seq<Seq<char>>,
    j: int,
)
    requires
        headers.no_duplicates(),
        rec.len() == headers.len(),
        0 <= j <= rec.len(),
    ensures
        forall|h: Seq<char>|
            #[trigger] add_record(m, headers, rec.take(j)).contains_key(h) <==> (m.contains_key(h)
                || headers.take(j).contains(h)),
        forall|k: int|
            0 <= k < j ==> #[trigger] add_record(m, headers, rec.take(j))[headers[k]] == column_or_empty(
                m,
                headers[k],
            ).push(rec[k]),
        forall|h: Seq<char>|
            m.contains_key(h) && !headers.take(j).contains(h) ==> #[trigger] add_record(
                m,
                headers,
                rec.take(j),
            )[h] == m[h],
    decreases j,
{
    let r = add_record(m, headers, rec.take(j));
    if j == 0 {
        assert(rec.take(0) =~= Seq::<Seq<char>>::empty());
        assert forall|h: Seq<char>| !headers.take(0).contains(h) by {}
    } else {
        lemma_add_record_prefix(m, headers, rec, j - 1);
        let p = add_record(m, headers, rec.take(j - 1));
        assert(rec.take(j).drop_last() =~= rec.take(j - 1));
        assert(rec.take(j).last() == rec[j - 1]);
        let h = headers[j - 1];
        assert(r == push_entry(p, h, rec[j - 1]));
        assert(!headers.take(j - 1).contains(h)) by {
            if headers.take(j - 1).contains(h) {
                let k = choose|k: int| 0 <= k < j - 1 && #[trigger] headers.take(j - 1)[k] == h;
                assert(headers[k] == headers[j - 1]);
            }
        }
        assert(column_or_empty(p, h) == column_or_empty(m, h));
        assert(r == p.insert(h, column_or_empty(m, h).push(rec[j - 1])));
        assert forall|x: Seq<char>| #[trigger] r.contains_key(x) <==> (m.contains_key(x) || headers.take(j).contains(x)) by {
            if headers.take(j - 1).contains(x) {
                let k = choose|k: int| 0 <= k < j - 1 && #[trigger] headers.take(j - 1)[k] == x;
                assert(headers.take(j)[k] == x);
            }
            if headers.take(j).contains(x) {
                let k = choose|k: int| 0 <= k < j && #[trigger] headers.take(j)[k] == x;
                if k < j - 1 {
                    assert(headers.take(j - 1)[k] == x);
                }
            }
            assert(headers.take(j)[j - 1] == h);
        }
        assert forall|k: int| 0 <= k < j implies #[trigger] r[headers[k]] == column_or_empty(m, headers[k]).push(rec[k]) by {
            if k < j - 1 {
                assert(headers[k] != h);
                assert(p[headers[k]] == column_or_empty(m, headers[k]).push(rec[k]));
            }
        }
        assert forall|x: Seq<char>| m.contains_key(x) && !headers.take(j).contains(x) implies #[trigger] r[x] == m[x] by {
            assert(headers.take(j)[j - 1] == h);
            assert(!headers.take(j - 1).contains(x)) by {
                if headers.take(j - 1).contains(x) {
                    let k = choose|k: int| 0 <= k < j - 1 && #[trigger] headers.take(j - 1)[k] == x;
                    assert(headers.take(j)[k] == x);
                }
            }
        }
    }
}

/// Read into an empty table, records with as many fields as there are
/// distinct headers give one column per header, holding, in record order,
/// each record's field at that header's position.
pub proof fn law_records_become_columns(headers: Seq<Seq<char>>, records: Seq<Seq<Seq<char>>>)
    requires
        headers.no_duplicates(),
        records.len() > 0,
        forall|i: int| 0 <= i < records.len() ==> (#[trigger] records[i]).len() == headers.len(),
    ensures
        forall|h: Seq<char>| #[trigger] add_records(Map::empty(), headers, records).contains_key(h) <==> headers.contains(h),
        forall|j: int|
            0 <= j < headers.len() ==> #[trigger] add_records(Map::empty(), headers, records)[headers[j]]
                == records.map_values(|r: Seq<Seq<char>>| r[j]),
    decreases records.len(),
{
    let m = add_records(Map::empty(), headers, records);
    let last = records.last();
    assert(last.len() == headers.len());
    assert(last.take(last.len() as int) =~= last);
    if records.len() == 1 {
        let m0 = Map::<Seq<char>, Seq<Seq<char>>>::empty();
        assert(records.drop_last() =~= Seq::<Seq<Seq<char>>>::empty());
        assert(add_records(m0, headers, records.drop_last()) == m0);
        lemma_add_record_prefix(m0, headers, last, last.len() as int);
        assert(headers.take(headers.len() as int) =~= headers);
        assert forall|j: int| 0 <= j < headers.len() implies #[trigger] m[headers[j]] == records.map_values(
            |r: Seq<Seq<char>>| r[j],
        ) by {
            assert(m[headers[j]] == column_or_empty(m0, headers[j]).push(last[j]));
            assert(m[headers[j]] =~= records.map_values(|r: Seq<Seq<char>>| r[j]));
        }
    } else {
        let init = records.drop_last();
        law_records_become_columns(headers, init);
        let m0 = add_records(Map::empty(), headers, init);
        lemma_add_record_prefix(m0, headers, last, last.len() as int);
        assert(headers.take(headers.len() as int) =~= headers);
        assert forall|h: Seq<char>| #[trigger] m.contains_key(h) <==> headers.contains(h) by {}
        assert forall|j: int| 0 <= j < headers.len() implies #[trigger] m[headers[j]] == records.map_values(
            |r: Seq<Seq<char>>| r[j],
        ) by {
            assert(m0.contains_key(headers[j]));
            assert(m[headers[j]] == m0[headers[j]].push(last[j]));
            assert(m[headers[j]] =~= records.map_values(|r: Seq<Seq<char>>| r[j]));
        }
    }
}

/// For a first-degree candidate rule, the rows holding both values are
/// never more than the occurrences of either value, and the occurrences of
/// each value are never more than the rows of its column: support and
/// confidence never exceed one.
pub proof fn law_first_degree_counts(
    df: Map<Seq<char>, Seq<Seq<char>>>,
    hx: Seq<char>,
    hy: Seq<char>,
    vx: Seq<char>,
    vy: Seq<char>,
)
    requires
        df.contains_key(hx),
        df.contains_key(hy),
        forall|h: Seq<char>| #[trigger] df.contains_key(h) ==> df[h].len() <= usize::MAX,
    ensures
        value_stats(df, hx, hy, vx, vy).4 <= value_stats(df, hx, hy, vx, vy).2,
        value_stats(df, hx, hy, vx, vy).4 <= value_stats(df, hx, hy, vx, vy).3,
        value_stats(df, hx, hy, vx, vy).2 <= value_stats(df, hx, hy, vx, vy).5,
        value_stats(df, hx, hy, vx, vy).3 <= df[hy].len(),
{
    broadcast use vstd::seq_lib::group_filter_ensures;
    law_occurrences_are_matching_rows(df, hx, vx);
    law_occurrences_are_matching_rows(df, hy, vy);
    let a = seq![(hx, vx)];
    let b = seq![(hy, vy)];
    law_conjunction_narrows(df, a, b);
    assert(a + b =~= seq![(hx, vx), (hy, vy)]);
    assert(occurrences(df[hx], vx).len() <= df[hx].len());
    assert(occurrences(df[hy], vy).len() <= df[hy].len());
}

/// For a combined rule whose sides have at least one condition each, the
/// rows meeting both sides are never more than the rows meeting either
/// side: confidence never exceeds one.
pub proof fn law_round_counts(df: Map<Seq<char>, Seq<Seq<char>>>, combo: Seq<Seq<Seq<Seq<char>>>>)
    requires
        combo.len() == 2,
        combo[0].len() > 0,
        combo[1].len() > 0,
        forall|h: Seq<char>| #[trigger] df.contains_key(h) ==> df[h].len() <= usize::MAX,
    ensures
        combo_stats(df, combo).3 <= combo_stats(df, combo).1,
        combo_stats(df, combo).3 <= combo_stats(df, combo).2,
{
    law_conjunction_narrows(df, part_conditions(combo[0]), part_conditions(combo[1]));
}

} // verus!
