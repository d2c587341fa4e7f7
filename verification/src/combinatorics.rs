use vstd::prelude::*;

verus! {

/// A copy of a list of strings.
pub fn clone_strings(v: &Vec<String>) -> (r: Vec<String>)
    ensures
        r.deep_view() == v.deep_view(),
{
    let mut r: Vec<String> = Vec::new();
    let mut i: usize = 0;
    while i < v.len()
        invariant
            i <= v.len(),
            r.deep_view() == v.deep_view().take(i as int),
        decreases v.len() - i,
    {
        let ghost old_r = r.deep_view();
        let x = v[i].clone();
        assert(x@ == v.deep_view()[i as int]);
        r.push(x);
        assert(r.deep_view() == old_r.push(x@));
        assert(r.deep_view() =~~= v.deep_view().take(i + 1));
        i = i + 1;
    }
    assert(v.deep_view().take(v.len() as int) =~= v.deep_view());
    r
}

/// A copy of a list of lists of strings.
pub fn clone_string_lists(v: &Vec<Vec<String>>) -> (r: Vec<Vec<String>>)
    ensures
        r.deep_view() == v.deep_view(),
{
    let mut r: Vec<Vec<String>> = Vec::new();
    let mut i: usize = 0;
    while i < v.len()
        invariant
            i <= v.len(),
            r.deep_view() == v.deep_view().take(i as int),
        decreases v.len() - i,
    {
        let ghost old_r = r.deep_view();
        let x = clone_strings(&v[i]);
        r.push(x);
        assert(r.deep_view() == old_r.push(x.deep_view()));
        assert(r.deep_view() =~~= v.deep_view().take(i + 1));
        i = i + 1;
    }
    assert(v.deep_view().take(v.len() as int) =~= v.deep_view());
    r
}

/// The pairs `[e[i], e[j]]` for `j` in `start..j_end` with `j != i`, in
/// increasing order of `j`.
pub open spec fn row_pairs(e: Seq<Seq<char>>, start: int, i: int, j_end: int) -> Seq<Seq<Seq<char>>>
    decreases j_end - start,
{
    if j_end <= start {
        Seq::empty()
    } else {
        let init = row_pairs(e, start, i, j_end - 1);
        if i != j_end - 1 {
            init.push(seq![e[i], e[j_end - 1]])
        } else {
            init
        }
    }
}

/// The pairs `[e[i], e[j]]` for distinct `i` and `j` in `start..`, with `i`
/// below `i_end`, ordered by `i` and then by `j`.
pub open spec fn ordered_pairs_upto(e: Seq<Seq<char>>, start: int, i_end: int) -> Seq<Seq<Seq<char>>>
    decreases i_end - start,
{
    if i_end <= start {
        Seq::empty()
    } else {
        ordered_pairs_upto(e, start, i_end - 1) + row_pairs(e, start, i_end - 1, e.len() as int)
    }
}

/// Every ordered pair of elements at distinct positions of `e` from `start`
/// on, ordered by the first position and then by the second.
pub open spec fn ordered_pairs(e: Seq<Seq<char>>, start: int) -> Seq<Seq<Seq<char>>> {
    ordered_pairs_upto(e, start, e.len() as int)
}

proof fn lemma_row_pairs_shape(e: Seq<Seq<char>>, start: int, i: int, j_end: int)
    requires
        0 <= start,
        0 <= i < e.len(),
        j_end <= e.len(),
    ensures
        forall|k: int|
            0 <= k < row_pairs(e, start, i, j_end).len() ==> (#[trigger] row_pairs(e, start, i, j_end)[k]).len()
                == 2 && e.contains(row_pairs(e, start, i, j_end)[k][0]) && e.contains(
                row_pairs(e, start, i, j_end)[k][1],
            ),
    decreases j_end - start,
{
    if j_end > start {
        lemma_row_pairs_shape(e, start, i, j_end - 1);
        let init = row_pairs(e, start, i, j_end - 1);
        if i != j_end - 1 {
            let p = seq![e[i], e[j_end - 1]];
            assert(e.contains(p[0]));
            assert(e.contains(p[1]));
            assert forall|k: int| 0 <= k < init.push(p).len() implies (#[trigger] init.push(p)[k]).len() == 2
                && e.contains(init.push(p)[k][0]) && e.contains(init.push(p)[k][1]) by {
                if k < init.len() {
                    assert(init.push(p)[k] == init[k]);
                }
            }
        }
    }
}

proof fn lemma_ordered_pairs_upto_shape(e: Seq<Seq<char>>, start: int, i_end: int)
    requires
        0 <= start,
        i_end <= e.len(),
    ensures
        forall|k: int|
            0 <= k < ordered_pairs_upto(e, start, i_end).len() ==> (#[trigger] ordered_pairs_upto(
                e,
                start,
                i_end,
            )[k]).len() == 2 && e.contains(ordered_pairs_upto(e, start, i_end)[k][0]) && e.contains(
                ordered_pairs_upto(e, start, i_end)[k][1],
            ),
    decreases i_end - start,
{
    if i_end > start {
        lemma_ordered_pairs_upto_shape(e, start, i_end - 1);
        lemma_row_pairs_shape(e, start, i_end - 1, e.len() as int);
        let a = ordered_pairs_upto(e, start, i_end - 1);
        let b = row_pairs(e, start, i_end - 1, e.len() as int);
        assert forall|k: int| 0 <= k < (a + b).len() implies (#[trigger] (a + b)[k]).len() == 2
            && e.contains((a + b)[k][0]) && e.contains((a + b)[k][1]) by {
            if k < a.len() {
                assert((a + b)[k] == a[k]);
            } else {
                assert((a + b)[k] == b[k - a.len()]);
            }
        }
    }
}

/// Every ordered pair has two entries, each an element of `e`.
pub proof fn lemma_pairs_name_headers(e: Seq<Seq<char>>)
    ensures
        forall|k: int|
            0 <= k < ordered_pairs(e, 0).len() ==> (#[trigger] ordered_pairs(e, 0)[k]).len() == 2,
        forall|k: int, x: int|
            0 <= k < ordered_pairs(e, 0).len() && 0 <= x < 2 ==> e.contains(
                #[trigger] ordered_pairs(e, 0)[k][x],
            ),
        e.len() < 2 ==> ordered_pairs(e, 0).len() == 0,
{
    lemma_ordered_pairs_upto_shape(e, 0, e.len() as int);
    if e.len() == 1 {
        assert(row_pairs(e, 0, 0, 0).len() == 0);
        assert(row_pairs(e, 0, 0, 1).len() == 0);
        assert(ordered_pairs_upto(e, 0, 0).len() == 0);
    }
    assert forall|k: int, x: int|
        0 <= k < ordered_pairs(e, 0).len() && 0 <= x < 2 implies e.contains(
            #[trigger] ordered_pairs(e, 0)[k][x],
        ) by {
        let p = ordered_pairs(e, 0)[k];
        if x == 0 {
            assert(e.contains(p[0]));
        } else {
            assert(e.contains(p[1]));
        }
    }
}

/// Appends to `result` every ordered pair of elements of `elements` at
/// distinct positions from `start` on.
pub fn combine(elements: &Vec<String>, start: usize, result: &mut Vec<Vec<String>>)
    ensures
        final(result).deep_view() == old(result).deep_view() + ordered_pairs(elements.deep_view(), start as int),
{
    let ghost e = elements.deep_view();
    let ghost base = result.deep_view();
    let n = elements.len();
    let mut i: usize = start;
    if start >= n {
        assert(ordered_pairs(e, start as int) =~= Seq::empty());
        assert(result.deep_view() =~= base + ordered_pairs(e, start as int));
        return;
    }
    assert(ordered_pairs_upto(e, start as int, start as int) =~= Seq::empty());
    assert(result.deep_view() =~= base + ordered_pairs_upto(e, start as int, start as int));
    while i < n
        invariant
            start <= i <= n,
            n == e.len(),
            e == elements.deep_view(),
            result.deep_view() == base + ordered_pairs_upto(e, start as int, i as int),
        decreases n - i,
    {
        let ghost row_base = result.deep_view();
        let mut j: usize = start;
        assert(row_base =~= row_base + row_pairs(e, start as int, i as int, start as int));
        while j < n
            invariant
                start <= j <= n,
                i < n,
                n == e.len(),
                e == elements.deep_view(),
                result.deep_view() == row_base + row_pairs(e, start as int, i as int, j as int),
            decreases n - j,
        {
            let ghost old_r = result.deep_view();
            if i != j {
                let pair = vec![elements[i].clone(), elements[j].clone()];
                assert(pair.deep_view() =~= seq![e[i as int], e[j as int]]);
                result.push(pair);
                assert(result.deep_view() == old_r.push(seq![e[i as int], e[j as int]]));
            }
            assert(result.deep_view() =~~= row_base + row_pairs(e, start as int, i as int, j + 1));
            j = j + 1;
        }
        assert(result.deep_view() =~= base + ordered_pairs_upto(e, start as int, i + 1));
        i = i + 1;
    }
}

/// The pairs `[x, y]` with `x` from `a` and `y` from `b`, ordered by `x` and
/// then by `y`.
pub open spec fn value_pairs(a: Seq<Seq<char>>, b: Seq<Seq<char>>) -> Seq<Seq<Seq<char>>>
    decreases a.len(),
{
    if a.len() == 0 {
        Seq::empty()
    } else {
        value_pairs(a.drop_last(), b) + b.map_values(|y: Seq<char>| seq![a.last(), y])
    }
}

/// Every value pair has two entries.
pub proof fn lemma_value_pairs_shape(a: Seq<Seq<char>>, b: Seq<Seq<char>>)
    ensures
        forall|k: int| 0 <= k < value_pairs(a, b).len() ==> (#[trigger] value_pairs(a, b)[k]).len() == 2,
    decreases a.len(),
{
    if a.len() > 0 {
        lemma_value_pairs_shape(a.drop_last(), b);
        let x = value_pairs(a.drop_last(), b);
        let y = b.map_values(|v: Seq<char>| seq![a.last(), v]);
        assert forall|k: int| 0 <= k < (x + y).len() implies (#[trigger] (x + y)[k]).len() == 2 by {
            if k < x.len() {
                assert((x + y)[k] == x[k]);
            } else {
                assert((x + y)[k] == y[k - x.len()]);
            }
        }
    }
}

/// Every pair of a value of the first header with a value of the second.
pub fn values_combinations(header_one_values: &Vec<String>, header_two_values: &Vec<String>) -> (r: Vec<Vec<String>>)
    ensures
        r.deep_view() == value_pairs(header_one_values.deep_view(), header_two_values.deep_view()),
{
    let ghost a = header_one_values.deep_view();
    let ghost b = header_two_values.deep_view();
    let mut values: Vec<Vec<String>> = Vec::new();
    let mut i: usize = 0;
    assert(values.deep_view() =~= value_pairs(a.take(0), b));
    while i < header_one_values.len()
        invariant
            i <= a.len(),
            a == header_one_values.deep_view(),
            b == header_two_values.deep_view(),
            values.deep_view() == value_pairs(a.take(i as int), b),
        decreases a.len() - i,
    {
        let ghost row_base = values.deep_view();
        let mut j: usize = 0;
        while j < header_two_values.len()
            invariant
                j <= b.len(),
                i < a.len(),
                a == header_one_values.deep_view(),
                b == header_two_values.deep_view(),
                values.deep_view() == row_base + b.take(j as int).map_values(|y: Seq<char>| seq![a[i as int], y]),
            decreases b.len() - j,
        {
            let pair = vec![header_one_values[i].clone(), header_two_values[j].clone()];
            assert(pair.deep_view() =~= seq![a[i as int], b[j as int]]);
            let ghost old_v = values.deep_view();
            values.push(pair);
            assert(values.deep_view() == old_v.push(seq![a[i as int], b[j as int]]));
            assert(b.take(j + 1).map_values(|y: Seq<char>| seq![a[i as int], y]) =~= b.take(j as int).map_values(|y: Seq<char>| seq![a[i as int], y]).push(seq![a[i as int], b[j as int]]));
            assert(values.deep_view() =~~= row_base + b.take(j + 1).map_values(|y: Seq<char>| seq![a[i as int], y]));
            j = j + 1;
        }
        assert(a.take(i + 1).drop_last() =~= a.take(i as int));
        assert(b.take(b.len() as int) =~= b);
        assert(values.deep_view() =~= value_pairs(a.take(i + 1), b));
        i = i + 1;
    }
    assert(a.take(a.len() as int) =~= a);
    values
}

/// The pairs `[r[i], r[j]]` with `i < j`, `i` below `i_end`, ordered by `i`
/// and then by `j`.
pub open spec fn upper_pairs_upto<A>(r: Seq<A>, i_end: int) -> Seq<Seq<A>>
    decreases i_end,
{
    if i_end <= 0 {
        Seq::empty()
    } else {
        upper_pairs_upto(r, i_end - 1) + Seq::new(
            (r.len() - i_end) as nat,
            |t: int| seq![r[i_end - 1], r[i_end + t]],
        )
    }
}

/// Every pair of two rules of `r` at positions `i < j`, ordered by `i` and
/// then by `j`.
pub open spec fn upper_pairs<A>(r: Seq<A>) -> Seq<Seq<A>> {
    upper_pairs_upto(r, r.len() as int)
}

proof fn lemma_upper_pairs_upto_at<A>(r: Seq<A>, i_end: int, k: int) -> (ij: (int, int))
    requires
        i_end <= r.len(),
        0 <= k < upper_pairs_upto(r, i_end).len(),
    ensures
        0 <= ij.0 < ij.1 < r.len(),
        upper_pairs_upto(r, i_end)[k] == seq![r[ij.0], r[ij.1]],
    decreases i_end,
{
    let a = upper_pairs_upto(r, i_end - 1);
    let b = Seq::new((r.len() - i_end) as nat, |t: int| seq![r[i_end - 1], r[i_end + t]]);
    if k < a.len() {
        assert((a + b)[k] == a[k]);
        lemma_upper_pairs_upto_at(r, i_end - 1, k)
    } else {
        let t = k - a.len();
        assert((a + b)[k] == b[t]);
        (i_end - 1, i_end + t)
    }
}

/// Each pair of rules is the pair of the rules at two positions `i < j`.
pub proof fn lemma_upper_pair_at<A>(r: Seq<A>, k: int) -> (ij: (int, int))
    requires
        0 <= k < upper_pairs(r).len(),
    ensures
        0 <= ij.0 < ij.1 < r.len(),
        upper_pairs(r)[k] == seq![r[ij.0], r[ij.1]],
{
    lemma_upper_pairs_upto_at(r, r.len() as int, k)
}

/// Pairs every rule with each rule after it.
pub fn combine_superior_rules(rules: &Vec<Vec<Vec<String>>>) -> (r: Vec<Vec<Vec<Vec<String>>>>)
    ensures
        r.deep_view() == upper_pairs(rules.deep_view()),
{
    let ghost rv = rules.deep_view();
    let n = rules.len();
    let mut combined_rules: Vec<Vec<Vec<Vec<String>>>> = Vec::new();
    let mut i: usize = 0;
    assert(combined_rules.deep_view() =~= upper_pairs_upto(rv, 0));
    while i < n
        invariant
            i <= n,
            n == rv.len(),
            rv == rules.deep_view(),
            combined_rules.deep_view() == upper_pairs_upto(rv, i as int),
        decreases n - i,
    {
        let ghost row_base = combined_rules.deep_view();
        let mut j: usize = i + 1;
        while j < n
            invariant
                i < j <= n,
                n == rv.len(),
                rv == rules.deep_view(),
                combined_rules.deep_view() == row_base + Seq::new(
                    (j - i - 1) as nat,
                    |t: int| seq![rv[i as int], rv[i + 1 + t]],
                ),
            decreases n - j,
        {
            let mut combined_rule: Vec<Vec<Vec<String>>> = Vec::new();
            combined_rule.push(clone_string_lists(&rules[i]));
            combined_rule.push(clone_string_lists(&rules[j]));
            assert(combined_rule.deep_view() =~= seq![rv[i as int], rv[j as int]]);
            let ghost old_c = combined_rules.deep_view();
            combined_rules.push(combined_rule);
            assert(combined_rules.deep_view() == old_c.push(seq![rv[i as int], rv[j as int]]));
            assert(combined_rules.deep_view() =~~= row_base + Seq::new(
                (j + 1 - i - 1) as nat,
                |t: int| seq![rv[i as int], rv[i + 1 + t]],
            ));
            j = j + 1;
        }
        assert(combined_rules.deep_view() =~= upper_pairs_upto(rv, i + 1));
        i = i + 1;
    }
    combined_rules
}

} // verus!
