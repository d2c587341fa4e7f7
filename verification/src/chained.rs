use vstd::prelude::*;

use crate::frame::DataFrame;
use crate::queries::condition_holds;

verus! {

/// The views of a list of tables.
pub open spec fn frame_views(dfs: Seq<&DataFrame>) -> Seq<Map<Seq<char>, Seq<Seq<char>>>> {
    dfs.map_values(|d: &DataFrame| d@)
}

/// The headers named by `conds`, in order.
pub open spec fn condition_headers(conds: Seq<(Seq<char>, Seq<char>)>) -> Seq<Seq<char>> {
    conds.map_values(|c: (Seq<char>, Seq<char>)| c.0)
}

/// How many conditions name `header`.
pub open spec fn header_count(conds: Seq<(Seq<char>, Seq<char>)>, header: Seq<char>) -> nat {
    conds.filter(|c: (Seq<char>, Seq<char>)| c.0 == header).len()
}

/// For each row in `rows`, in order, `m` copies of `col` at that row.
pub open spec fn repeated_rows(col: Seq<Seq<char>>, rows: Seq<int>, m: nat) -> Seq<Seq<char>>
    decreases rows.len(),
{
    if rows.len() == 0 {
        Seq::empty()
    } else {
        repeated_rows(col, rows.drop_last(), m) + Seq::new(m, |x: int| col[rows.last()])
    }
}

/// Whether table `j` has the column named by condition `j`, and that column
/// holds the condition's value at row `i`.
pub open spec fn holds_in_table(
    dfs: Seq<Map<Seq<char>, Seq<Seq<char>>>>,
    conds: Seq<(Seq<char>, Seq<char>)>,
    j: int,
    i: int,
) -> bool {
    dfs[j].contains_key(conds[j].0) && condition_holds(dfs[j], conds[j], i)
}

/// Whether conditions `1..upto` each hold at row `i` in the table of the
/// same position.
pub open spec fn later_conditions_hold(
    dfs: Seq<Map<Seq<char>, Seq<Seq<char>>>>,
    conds: Seq<(Seq<char>, Seq<char>)>,
    i: int,
    upto: int,
) -> bool {
    forall|j: int| 1 <= j < upto ==> #[trigger] holds_in_table(dfs, conds, j, i)
}

/// Whether row `i` of the first table holds the first condition's value,
/// there is a table for every condition, and every later condition holds at
/// row `i` in the table of the same position.
pub open spec fn chain_row_ok(
    dfs: Seq<Map<Seq<char>, Seq<Seq<char>>>>,
    conds: Seq<(Seq<char>, Seq<char>)>,
    i: int,
) -> bool {
    dfs[0][conds[0].0][i] == conds[0].1 && conds.len() <= dfs.len() && later_conditions_hold(
        dfs,
        conds,
        i,
        conds.len() as int,
    )
}

/// The rows of the first table's first-condition column, in increasing
/// order, that hold the first condition's value and meet every later
/// condition in the table of the same position.
pub open spec fn chained_rows(
    dfs: Seq<Map<Seq<char>, Seq<Seq<char>>>>,
    conds: Seq<(Seq<char>, Seq<char>)>,
) -> Seq<int> {
    if conds.len() > 0 && dfs.len() > 0 && dfs[0].contains_key(conds[0].0) {
        Seq::new(dfs[0][conds[0].0].len(), |i: int| i).filter(|i: int| chain_row_ok(dfs, conds, i))
    } else {
        Seq::empty()
    }
}

/// The inputs on which the chained filter runs to its end: there is a first
/// table whenever there is a condition, every row it scans that meets the
/// conditions checked so far has a table for the next condition, and every
/// row that meets them all is present under every condition's header in the
/// first table.
pub open spec fn chained_filter_defined(
    dfs: Seq<Map<Seq<char>, Seq<Seq<char>>>>,
    conds: Seq<(Seq<char>, Seq<char>)>,
) -> bool {
    conds.len() == 0 || (dfs.len() > 0 && (dfs[0].contains_key(conds[0].0) ==> forall|i: int|
        0 <= i < dfs[0][conds[0].0].len() && (#[trigger] dfs[0][conds[0].0][i]) == conds[0].1
            && later_conditions_hold(
            dfs,
            conds,
            i,
            if conds.len() <= dfs.len() { conds.len() as int } else { dfs.len() as int },
        ) ==> conds.len() <= dfs.len() && forall|k: int|
            0 <= k < conds.len() ==> #[trigger] dfs[0].contains_key(conds[k].0) && i < dfs[0][conds[k].0].len()))
}

/// The table the chained filter returns: a column under every condition's
/// header, holding, for each row of `chained_rows`, the first table's value
/// at that row once per condition naming the header.
pub open spec fn chained_result(
    dfs: Seq<Map<Seq<char>, Seq<Seq<char>>>>,
    conds: Seq<(Seq<char>, Seq<char>)>,
) -> Map<Seq<char>, Seq<Seq<char>>> {
    Map::new(
        |h: Seq<char>| condition_headers(conds).contains(h),
        |h: Seq<char>| repeated_rows(dfs[0][h], chained_rows(dfs, conds), header_count(conds, h)),
    )
}

proof fn lemma_defined_at(
    dfs: Seq<Map<Seq<char>, Seq<Seq<char>>>>,
    conds: Seq<(Seq<char>, Seq<char>)>,
    i: int,
)
    requires
        chained_filter_defined(dfs, conds),
        conds.len() > 0,
        dfs.len() > 0,
        dfs[0].contains_key(conds[0].0),
        0 <= i < dfs[0][conds[0].0].len(),
        dfs[0][conds[0].0][i] == conds[0].1,
        later_conditions_hold(
            dfs,
            conds,
            i,
            if conds.len() <= dfs.len() { conds.len() as int } else { dfs.len() as int },
        ),
    ensures
        conds.len() <= dfs.len(),
        forall|k: int| 0 <= k < conds.len() ==> #[trigger] dfs[0].contains_key(conds[k].0),
        forall|k: int| 0 <= k < conds.len() ==> i < #[trigger] dfs[0][conds[k].0].len(),
{
    let x = dfs[0][conds[0].0][i];
    assert forall|k: int| 0 <= k < conds.len() implies i < #[trigger] dfs[0][conds[k].0].len() by {
        assert(dfs[0].contains_key(conds[k].0));
    }
}

pub proof fn lemma_header_count_step(conds: Seq<(Seq<char>, Seq<char>)>, k: int, h: Seq<char>)
    requires
        0 <= k < conds.len(),
    ensures
        header_count(conds.take(k + 1), h) == header_count(conds.take(k), h) + if conds[k].0 == h {
            1int
        } else {
            0int
        },
{
    reveal_with_fuel(Seq::filter, 1);
    assert(conds.take(k + 1).drop_last() =~= conds.take(k));
    assert(conds.take(k + 1).last() == conds[k]);
}

proof fn lemma_headers_step(conds: Seq<(Seq<char>, Seq<char>)>, k: int)
    requires
        0 <= k < conds.len(),
    ensures
        forall|h: Seq<char>|
            #[trigger] condition_headers(conds.take(k + 1)).contains(h) <==> (condition_headers(
                conds.take(k),
            ).contains(h) || h == conds[k].0),
{
    let a = condition_headers(conds.take(k + 1));
    let b = condition_headers(conds.take(k));
    assert forall|h: Seq<char>| a.contains(h) <==> (b.contains(h) || h == conds[k].0) by {
        if a.contains(h) {
            let x = choose|x: int| 0 <= x < a.len() && a[x] == h;
            if x < k {
                assert(b[x] == h);
            }
        }
        if b.contains(h) {
            let x = choose|x: int| 0 <= x < b.len() && b[x] == h;
            assert(a[x] == h);
        }
        if h == conds[k].0 {
            assert(a[k] == h);
        }
    }
}

/// Filters the first table for rows where every condition holds, the first
/// in the first table and each later one in the table of the same position,
/// and returns, under each condition's header, the first table's values at
/// the kept rows.
pub fn _recursive_filter_combined_occurrences(
    dfs: Vec<&DataFrame>,
    conditions: Vec<(String, String)>,
) -> (r: DataFrame)
    requires
        chained_filter_defined(frame_views(dfs@), conditions.deep_view()),
    ensures
        r@ == chained_result(frame_views(dfs@), conditions.deep_view()),
{
    let ghost views = frame_views(dfs@);
    let ghost conds = conditions.deep_view();
    let n = conditions.len();
    let mut result = DataFrame::new();
    let mut k: usize = 0;
    assert(result@ =~= Map::new(
        |h: Seq<char>| condition_headers(conds.take(0)).contains(h),
        |h: Seq<char>| Seq::<Seq<char>>::empty(),
    ));
    while k < n
        invariant
            k <= n,
            n == conditions.len(),
            conds == conditions.deep_view(),
            result@ == Map::new(
                |h: Seq<char>| condition_headers(conds.take(k as int)).contains(h),
                |h: Seq<char>| Seq::<Seq<char>>::empty(),
            ),
        decreases n - k,
    {
        let empty: Vec<String> = Vec::new();
        assert(empty.deep_view() =~= Seq::<Seq<char>>::empty());
        proof { lemma_headers_step(conds, k as int); }
        assert(conditions[k as int].0@ == conds[k as int].0);
        result.insert(conditions[k].0.clone(), empty);
        assert(result@ =~= Map::new(
            |h: Seq<char>| condition_headers(conds.take(k + 1)).contains(h),
            |h: Seq<char>| Seq::<Seq<char>>::empty(),
        ));
        k = k + 1;
    }
    assert(conds.take(n as int) =~= conds);
    if n > 0 {
        let header = &conditions[0].0;
        let value = &conditions[0].1;
        assert(header@ == conds[0].0 && value@ == conds[0].1);
        assert(views[0] == dfs@[0]@);
        match dfs[0].get(header) {
            Some(values) => {
                let ghost col0 = values.deep_view();
                let ghost all = Seq::new(col0.len(), |i: int| i);
                let ghost pred = |i: int| chain_row_ok(views, conds, i);
                let ghost dom = |h: Seq<char>| condition_headers(conds).contains(h);
                assert(chained_rows(views, conds) == all.filter(pred));
                assert(result@ =~~= Map::new(
                    dom,
                    |h: Seq<char>| repeated_rows(views[0][h], all.take(0).filter(pred), header_count(conds, h)),
                )) by {
                    reveal_with_fuel(Seq::filter, 1);
                    assert(all.take(0).filter(pred) =~= Seq::<int>::empty());
                }
                let mut i: usize = 0;
                while i < values.len()
                    invariant
                        i <= values.len(),
                        n == conditions.len(),
                        n > 0,
                        conds == conditions.deep_view(),
                        views == frame_views(dfs@),
                        views[0].contains_key(conds[0].0),
                        col0 == views[0][conds[0].0],
                        col0 == values.deep_view(),
                        all == Seq::new(col0.len(), |i: int| i),
                        pred == (|i: int| chain_row_ok(views, conds, i)),
                        dom == (|h: Seq<char>| condition_headers(conds).contains(h)),
                        chained_filter_defined(views, conds),
                        value@ == conds[0].1,
                        result@ == Map::new(
                            dom,
                            |h: Seq<char>|
                                repeated_rows(views[0][h], all.take(i as int).filter(pred), header_count(conds, h)),
                        ),
                    decreases values.len() - i,
                {
                    let ghost prefix = all.take(i as int).filter(pred);
                    proof {
                        reveal_with_fuel(Seq::filter, 1);
                        assert(all.take(i + 1).drop_last() =~= all.take(i as int));
                        assert(all.take(i + 1).last() == i);
                    }
                    if values[i] == *value {
                        assert(col0[i as int] == conds[0].1);
                        let mut match_found = true;
                        let mut j: usize = 1;
                        while j < n && match_found
                            invariant
                                1 <= j <= n,
                                i < col0.len(),
                                n == conditions.len(),
                                conds == conditions.deep_view(),
                                views == frame_views(dfs@),
                                views[0].contains_key(conds[0].0),
                                col0 == views[0][conds[0].0],
                                col0[i as int] == conds[0].1,
                                chained_filter_defined(views, conds),
                                match_found ==> later_conditions_hold(views, conds, i as int, j as int),
                                !match_found ==> !later_conditions_hold(views, conds, i as int, n as int),
                            decreases n - j,
                        {
                            proof {
                                if j >= dfs.len() {
                                    let d = dfs.len() as int;
                                    assert(later_conditions_hold(views, conds, i as int, d));
                                    lemma_defined_at(views, conds, i as int);
                                    assert(false);
                                }
                            }
                            assert(views[j as int] == dfs@[j as int]@);
                            assert(conditions[j as int].0@ == conds[j as int].0);
                            assert(conditions[j as int].1@ == conds[j as int].1);
                            match dfs[j].get(&conditions[j].0) {
                                Some(values_j) => {
                                    let holds = i < values_j.len() && values_j[i] == conditions[j].1;
                                    assert(holds == holds_in_table(views, conds, j as int, i as int));
                                    if !holds {
                                        match_found = false;
                                    }
                                },
                                None => {
                                    assert(!holds_in_table(views, conds, j as int, i as int));
                                    match_found = false;
                                },
                            }
                            j = j + 1;
                        }
                        proof {
                            if match_found {
                                assert(j == n);
                                if n > dfs.len() {
                                    let d = dfs.len() as int;
                                    assert(later_conditions_hold(views, conds, i as int, d));
                                    lemma_defined_at(views, conds, i as int);
                                    assert(false);
                                }
                                assert(pred(i as int));
                            } else {
                                assert(!pred(i as int));
                            }
                        }
                        if match_found {
                            assert(0 <= i < views[0][conds[0].0].len() && views[0][conds[0].0][i as int] == conds[0].1);
                            assert(conds.len() <= views.len());
                            assert(later_conditions_hold(views, conds, i as int, conds.len() as int));
                            proof { lemma_defined_at(views, conds, i as int); }

                            let mut k: usize = 0;
                            while k < n
                                invariant
                                    k <= n,
                                    n == conditions.len(),
                                    conds == conditions.deep_view(),
                                    views == frame_views(dfs@),
                                    dfs.len() > 0,
                                    dom == (|h: Seq<char>| condition_headers(conds).contains(h)),
                                    forall|x: int| 0 <= x < conds.len() ==> #[trigger] views[0].contains_key(conds[x].0),
                                    forall|x: int| 0 <= x < conds.len() ==> i < #[trigger] views[0][conds[x].0].len(),
                                    result@ == Map::new(
                                        dom,
                                        |h: Seq<char>|
                                            repeated_rows(views[0][h], prefix, header_count(conds, h))
                                                + Seq::new(header_count(conds.take(k as int), h), |x: int| views[0][h][i as int]),
                                    ),
                                decreases n - k,
                            {
                                assert(conditions[k as int].0@ == conds[k as int].0);
                                assert(views[0] == dfs@[0]@);
                                assert(views[0].contains_key(conds[k as int].0));
                                let col = dfs[0].get(&conditions[k].0).unwrap();
                                assert(dom(conds[k as int].0)) by {
                                    assert(condition_headers(conds)[k as int] == conds[k as int].0);
                                }
                                assert(i < views[0][conds[k as int].0].len());
                                let ghost before = result@;
                                result.push_value(&conditions[k].0, col[i].clone());
                                proof {
                                    let hk = conds[k as int].0;
                                    assert forall|h: Seq<char>| #[trigger] dom(h) implies result@[h]
                                        == repeated_rows(views[0][h], prefix, header_count(conds, h))
                                            + Seq::new(header_count(conds.take(k + 1), h), |x: int| views[0][h][i as int]) by {
                                        lemma_header_count_step(conds, k as int, h);
                                        if h == hk {
                                            assert(result@[h] =~= repeated_rows(views[0][h], prefix, header_count(conds, h))
                                                + Seq::new(header_count(conds.take(k + 1), h), |x: int| views[0][h][i as int]));
                                        } else {
                                            assert(result@[h] == before[h]);
                                            assert(Seq::new(header_count(conds.take(k + 1), h), |x: int| views[0][h][i as int])
                                                =~= Seq::new(header_count(conds.take(k as int), h), |x: int| views[0][h][i as int]));
                                        }
                                    }
                                }
                                assert(result@ =~~= Map::new(
                                    dom,
                                    |h: Seq<char>|
                                        repeated_rows(views[0][h], prefix, header_count(conds, h))
                                            + Seq::new(header_count(conds.take(k + 1), h), |x: int| views[0][h][i as int]),
                                ));
                                k = k + 1;
                            }
                            assert(conds.take(n as int) =~= conds);
                            assert(all.take(i + 1).filter(pred) == prefix.push(i as int));
                            assert(result@ =~~= Map::new(
                                dom,
                                |h: Seq<char>|
                                    repeated_rows(views[0][h], all.take(i + 1).filter(pred), header_count(conds, h)),
                            )) by {
                                assert forall|h: Seq<char>| #[trigger] dom(h) implies
                                    repeated_rows(views[0][h], prefix.push(i as int), header_count(conds, h))
                                    == repeated_rows(views[0][h], prefix, header_count(conds, h))
                                        + Seq::new(header_count(conds, h), |x: int| views[0][h][i as int]) by {
                                    assert(prefix.push(i as int).drop_last() =~= prefix);
                                }
                            }
                        } else {
                            assert(all.take(i + 1).filter(pred) == prefix);
                        }
                    } else {
                        assert(!pred(i as int));
                        assert(all.take(i + 1).filter(pred) == prefix);
                    }
                    i = i + 1;
                }
                assert(all.take(values.len() as int) =~= all);
                assert(result@ =~~= chained_result(views, conds));
            },
            None => {
                assert(chained_rows(views, conds) =~= Seq::<int>::empty());
                assert(result@ =~~= chained_result(views, conds));
            },
        }
    } else {
        assert(chained_rows(views, conds) =~= Seq::<int>::empty());
        assert(result@ =~~= chained_result(views, conds));
    }
    result
}

} // verus!
