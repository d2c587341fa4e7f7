use vstd::prelude::*;

use crate::frame::DataFrame;

verus! {

/// `s` with every element after its first occurrence removed, in order of
/// first occurrence.
pub open spec fn distinct_in_order<A>(s: Seq<A>) -> Seq<A>
    decreases s.len(),
{
    if s.len() == 0 {
        s
    } else {
        let init = distinct_in_order(s.drop_last());
        if init.contains(s.last()) {
            init
        } else {
            init.push(s.last())
        }
    }
}

/// The elements of `column` equal to `value`, in order.
pub open spec fn occurrences(column: Seq<Seq<char>>, value: Seq<char>) -> Seq<Seq<char>> {
    column.filter(|x: Seq<char>| x == value)
}

/// Whether `v` holds a string whose view is `s`.
pub fn contains_string(v: &Vec<String>, s: &String) -> (b: bool)
    ensures
        b == v.deep_view().contains(s@),
{
    let mut i: usize = 0;
    while i < v.len()
        invariant
            i <= v.len(),
            forall|k: int| 0 <= k < i ==> v.deep_view()[k] != s@,
        decreases v.len() - i,
    {
        if v[i] == *s {
            assert(v.deep_view()[i as int] == s@);
            return true;
        }
        i = i + 1;
    }
    false
}

/// The values of `column`, each once, in order of first occurrence.
pub fn distinct_values(column: &Vec<String>) -> (r: Vec<String>)
    ensures
        r.deep_view() == distinct_in_order(column.deep_view()),
{
    let mut r: Vec<String> = Vec::new();
    let mut i: usize = 0;
    while i < column.len()
        invariant
            i <= column.len(),
            r.deep_view() == distinct_in_order(column.deep_view().take(i as int)),
        decreases column.len() - i,
    {
        let ghost prefix = column.deep_view().take(i as int);
        assert(column.deep_view().take(i + 1).drop_last() =~= prefix);
        if !contains_string(&r, &column[i]) {
            r.push(column[i].clone());
            assert(r.deep_view() =~= distinct_in_order(prefix).push(column.deep_view()[i as int]));
        }
        i = i + 1;
    }
    assert(column.deep_view().take(column.len() as int) =~= column.deep_view());
    r
}

/// Maps every header of `df` to its distinct values, in order of first
/// occurrence.
pub fn get_unique_values(df: &DataFrame) -> (r: DataFrame)
    ensures
        r@ == df@.map_values(|col: Seq<Seq<char>>| distinct_in_order(col)),
{
    let headers = df.header_list();
    let mut r = DataFrame::new();
    let mut i: usize = 0;
    while i < headers.len()
        invariant
            i <= headers.len(),
            headers.deep_view().no_duplicates(),
            forall|h: Seq<char>| #[trigger] df@.contains_key(h) <==> headers.deep_view().contains(h),
            r@ == df@.map_values(|col: Seq<Seq<char>>| distinct_in_order(col)).restrict(
                headers.deep_view().take(i as int).to_set(),
            ),
        decreases headers.len() - i,
    {
        let ghost hv = headers.deep_view()[i as int];
        assert(headers.deep_view().contains(hv));
        let column = df.get(&headers[i]).unwrap();
        let unique = distinct_values(column);
        r.insert(headers[i].clone(), unique);
        assert(headers.deep_view().take(i + 1).to_set() =~= headers.deep_view().take(i as int).to_set().insert(hv)) by {
            let t1 = headers.deep_view().take(i + 1);
            let t0 = headers.deep_view().take(i as int);
            assert forall|x: Seq<char>| t1.contains(x) implies t0.contains(x) || x == hv by {
                let k = choose|k: int| 0 <= k < t1.len() && t1[k] == x;
                if k < i {
                    assert(t0[k] == x);
                }
            }
            assert forall|x: Seq<char>| t0.contains(x) implies t1.contains(x) by {
                let k = choose|k: int| 0 <= k < t0.len() && t0[k] == x;
                assert(t1[k] == x);
            }
            assert(t1[i as int] == hv);
        }
        assert(r@ =~= df@.map_values(|col: Seq<Seq<char>>| distinct_in_order(col)).restrict(
            headers.deep_view().take(i + 1).to_set(),
        ));
        i = i + 1;
    }
    assert(headers.deep_view().take(headers.len() as int) =~= headers.deep_view());
    assert(r@ =~= df@.map_values(|col: Seq<Seq<char>>| distinct_in_order(col))) by {
        assert forall|h: Seq<char>| df@.contains_key(h) implies headers.deep_view().to_set().contains(h) by {
            assert(headers.deep_view().contains(h));
        }
    }
    r
}

/// A table with the single column `header`, holding every entry of
/// `df[header]` equal to `value`; the column is empty when `df` has no
/// column `header`.
pub fn filter_occurrences(df: &DataFrame, header: &String, value: &String) -> (r: DataFrame)
    ensures
        r@ == map![header@ => if df@.contains_key(header@) {
            occurrences(df@[header@], value@)
        } else {
            Seq::empty()
        }],
{
    let mut r = DataFrame::new();
    let empty: Vec<String> = Vec::new();
    assert(empty.deep_view() =~= Seq::<Seq<char>>::empty());
    r.insert(header.clone(), empty);
    proof { reveal_with_fuel(Seq::filter, 1); }
    assert(r@ =~= map![header@ => Seq::<Seq<char>>::empty()]);
    match df.get(header) {
        Some(values) => {
            let mut i: usize = 0;
            assert(occurrences(values.deep_view().take(0), value@) =~= Seq::<Seq<char>>::empty()) by {
                reveal_with_fuel(Seq::filter, 1);
            }
            while i < values.len()
                invariant
                    i <= values.len(),
                    df@.contains_key(header@),
                    values.deep_view() == df@[header@],
                    r@ == map![header@ => occurrences(values.deep_view().take(i as int), value@)],
                decreases values.len() - i,
            {
                let ghost prefix = values.deep_view().take(i as int);
                assert(values.deep_view().take(i + 1).drop_last() =~= prefix);
                reveal_with_fuel(Seq::filter, 1);
                if values[i] == *value {
                    r.push_value(header, values[i].clone());
                }
                assert(r@ =~= map![header@ => occurrences(values.deep_view().take(i + 1), value@)]);
                i = i + 1;
            }
            assert(values.deep_view().take(values.len() as int) =~= values.deep_view());
        },
        None => {
            assert(r@ =~= map![header@ => Seq::<Seq<char>>::empty()]);
        },
    }
    r
}

/// The number of positions `i`, below the length of both columns, at which
/// `col1` holds `value1` and `col2` holds `value2`.
pub open spec fn paired_match_count(
    col1: Seq<Seq<char>>,
    col2: Seq<Seq<char>>,
    value1: Seq<char>,
    value2: Seq<char>,
) -> nat {
    shared_positions(col1, col2).filter(|i: int| pair_holds(col1, col2, value1, value2, i)).len()
}

/// Whether `col1` holds `value1` and `col2` holds `value2` at position `i`.
pub open spec fn pair_holds(
    col1: Seq<Seq<char>>,
    col2: Seq<Seq<char>>,
    value1: Seq<char>,
    value2: Seq<char>,
    i: int,
) -> bool {
    col1[i] == value1 && col2[i] == value2
}

/// The positions below the length of both columns, in increasing order.
pub open spec fn shared_positions(col1: Seq<Seq<char>>, col2: Seq<Seq<char>>) -> Seq<int> {
    Seq::new(if col1.len() <= col2.len() { col1.len() } else { col2.len() }, |i: int| i)
}

/// The result of filtering `df1[header1]` and `df2[header2]` together for
/// `value1` and `value2`: `count` copies of each value under its header, or,
/// when both headers are the same, `count` repetitions of the two values in
/// turn under that header.
pub open spec fn paired_result(
    header1: Seq<char>,
    value1: Seq<char>,
    header2: Seq<char>,
    value2: Seq<char>,
    count: nat,
) -> Map<Seq<char>, Seq<Seq<char>>> {
    if header1 == header2 {
        map![header1 => Seq::new(2 * count, |j: int| if j % 2 == 0 { value1 } else { value2 })]
    } else {
        map![header1 => Seq::new(count, |j: int| value1), header2 => Seq::new(count, |j: int| value2)]
    }
}

/// The table that filtering `df1[header1]` and `df2[header2]` together for
/// `value1` and `value2` gives: the paired result of the positions where both
/// hold, none when either column is missing.
pub open spec fn combined_occurrences(
    df1: Map<Seq<char>, Seq<Seq<char>>>,
    df2: Map<Seq<char>, Seq<Seq<char>>>,
    header1: Seq<char>,
    value1: Seq<char>,
    header2: Seq<char>,
    value2: Seq<char>,
) -> Map<Seq<char>, Seq<Seq<char>>> {
    paired_result(
        header1,
        value1,
        header2,
        value2,
        if df1.contains_key(header1) && df2.contains_key(header2) {
            paired_match_count(df1[header1], df2[header2], value1, value2)
        } else {
            0
        },
    )
}

/// Keeps, from the rows that `df1[header1]` and `df2[header2]` share by
/// position, those holding `value1` and `value2` respectively, and returns the
/// kept values under `header1` and `header2`.
pub fn _filter_combined_occurrences(
    df1: &DataFrame,
    df2: &DataFrame,
    header1: &String,
    value1: &String,
    header2: &String,
    value2: &String,
) -> (r: DataFrame)
    ensures
        r@ == combined_occurrences(df1@, df2@, header1@, value1@, header2@, value2@),
{
    let mut r = DataFrame::new();
    let empty1: Vec<String> = Vec::new();
    let empty2: Vec<String> = Vec::new();
    assert(empty1.deep_view() =~= Seq::<Seq<char>>::empty());
    assert(empty2.deep_view() =~= Seq::<Seq<char>>::empty());
    r.insert(header1.clone(), empty1);
    r.insert(header2.clone(), empty2);
    assert(r@ =~~= paired_result(header1@, value1@, header2@, value2@, 0));
    match (df1.get(header1), df2.get(header2)) {
        (Some(values1), Some(values2)) => {
            let n = if values1.len() <= values2.len() { values1.len() } else { values2.len() };
            let ghost c1 = values1.deep_view();
            let ghost c2 = values2.deep_view();
            let ghost pred = |i: int| pair_holds(c1, c2, value1@, value2@, i);
            let ghost all = shared_positions(c1, c2);
            let mut i: usize = 0;
            proof { reveal_with_fuel(Seq::filter, 1); }
            assert(all.take(0) =~= Seq::<int>::empty());
            while i < n
                invariant
                    i <= n,
                    n <= values1.len(),
                    n <= values2.len(),
                    c1 == values1.deep_view(),
                    c2 == values2.deep_view(),
                    all == shared_positions(c1, c2),
                    all.len() == n,
                    pred == (|i: int| pair_holds(c1, c2, value1@, value2@, i)),
                    r@ == paired_result(header1@, value1@, header2@, value2@, all.take(i as int).filter(pred).len()),
                decreases n - i,
            {
                let ghost before = all.take(i as int).filter(pred).len();
                proof {
                    reveal_with_fuel(Seq::filter, 1);
                    assert(all.take(i + 1).drop_last() =~= all.take(i as int));
                    assert(all.take(i + 1).last() == i);
                }
                if values1[i] == *value1 && values2[i] == *value2 {
                    assert(pred(i as int));
                    assert(r@.contains_key(header1@));
                    r.push_value(header1, values1[i].clone());
                    assert(r@.contains_key(header2@));
                    r.push_value(header2, values2[i].clone());
                    proof {
                        if header1@ == header2@ {
                            assert(r@ =~~= paired_result(header1@, value1@, header2@, value2@, before + 1));
                        } else {
                            assert(r@ =~~= paired_result(header1@, value1@, header2@, value2@, before + 1));
                        }
                    }
                } else {
                    assert(!pred(i as int));
                }
                i = i + 1;
            }
            assert(all.take(n as int) =~= all);
        },
        _ => {},
    }
    r
}

/// Whether the column named by `cond.0` reaches row `i` and holds `cond.1`
/// there.
pub open spec fn condition_holds(
    df: Map<Seq<char>, Seq<Seq<char>>>,
    cond: (Seq<char>, Seq<char>),
    i: int,
) -> bool {
    0 <= i < df[cond.0].len() && df[cond.0][i] == cond.1
}

/// Whether row `i` meets every condition.
pub open spec fn row_matches(
    df: Map<Seq<char>, Seq<Seq<char>>>,
    conds: Seq<(Seq<char>, Seq<char>)>,
    i: int,
) -> bool {
    forall|k: int| 0 <= k < conds.len() ==> #[trigger] condition_holds(df, conds[k], i)
}

/// Whether every condition names a column of `df`.
pub open spec fn all_headers_present(
    df: Map<Seq<char>, Seq<Seq<char>>>,
    conds: Seq<(Seq<char>, Seq<char>)>,
) -> bool {
    forall|k: int| 0 <= k < conds.len() ==> #[trigger] df.contains_key(conds[k].0)
}

/// The row indices `0..n` in increasing order.
pub open spec fn index_range(n: nat) -> Seq<usize> {
    Seq::new(n, |i: int| i as usize)
}

/// The rows of the first condition's column, in increasing order, that meet
/// every condition; no rows at all when some condition names a missing
/// column.
pub open spec fn matching_rows(
    df: Map<Seq<char>, Seq<Seq<char>>>,
    conds: Seq<(Seq<char>, Seq<char>)>,
) -> Seq<usize> {
    if all_headers_present(df, conds) {
        index_range(df[conds[0].0].len()).filter(
            |i: usize| row_matches(df, conds, i as int),
        )
    } else {
        Seq::empty()
    }
}

/// The indices of the rows of `dataframe` that meet all `conditions`, each a
/// pair of header and value.
pub fn find_matching_rows(dataframe: &DataFrame, conditions: Vec<(String, String)>) -> (r: Vec<usize>)
    requires
        conditions.len() > 0,
    ensures
        r@ == matching_rows(dataframe@, conditions.deep_view()),
{
    let ghost conds = conditions.deep_view();
    let mut k: usize = 0;
    while k < conditions.len()
        invariant
            k <= conditions.len(),
            conds == conditions.deep_view(),
            forall|j: int| 0 <= j < k ==> #[trigger] dataframe@.contains_key(conds[j].0),
        decreases conditions.len() - k,
    {
        assert(conditions[k as int].0@ == conds[k as int].0);
        if !dataframe.contains_key(&conditions[k].0) {
            assert(!all_headers_present(dataframe@, conds));
            return Vec::new();
        }
        k = k + 1;
    }
    let mut cols: Vec<&Vec<String>> = Vec::new();
    let mut k: usize = 0;
    while k < conditions.len()
        invariant
            k <= conditions.len(),
            conds == conditions.deep_view(),
            all_headers_present(dataframe@, conds),
            cols.len() == k,
            forall|j: int| 0 <= j < k ==> (#[trigger] cols@[j]).deep_view() == dataframe@[conds[j].0],
        decreases conditions.len() - k,
    {
        assert(conditions[k as int].0@ == conds[k as int].0);
        assert(dataframe@.contains_key(conds[k as int].0));
        let col = dataframe.get(&conditions[k].0).unwrap();
        cols.push(col);
        k = k + 1;
    }
    let ghost all = index_range(dataframe@[conds[0].0].len());
    let ghost pred = |i: usize| row_matches(dataframe@, conds, i as int);
    let n = cols[0].len();
    let mut r: Vec<usize> = Vec::new();
    let mut i: usize = 0;
    while i < n
        invariant
            i <= n,
            n == all.len(),
            conds == conditions.deep_view(),
            cols.len() == conds.len(),
            all == index_range(dataframe@[conds[0].0].len()),
            pred == (|i: usize| row_matches(dataframe@, conds, i as int)),
            forall|j: int| 0 <= j < cols.len() ==> (#[trigger] cols@[j]).deep_view() == dataframe@[conds[j].0],
            r@ == all.take(i as int).filter(pred),
        decreases n - i,
    {
        let mut ok = true;
        let mut k: usize = 0;
        while k < conditions.len()
            invariant
                k <= conditions.len(),
                i < n,
                conds == conditions.deep_view(),
                cols.len() == conds.len(),
                forall|j: int| 0 <= j < cols.len() ==> (#[trigger] cols@[j]).deep_view() == dataframe@[conds[j].0],
                conds.len() == conditions.len(),
                ok == (forall|j: int| 0 <= j < k ==> #[trigger] condition_holds(dataframe@, conds[j], i as int)),
            decreases conditions.len() - k,
        {
            let col = cols[k];
            assert(col.deep_view() == dataframe@[conds[k as int].0]);
            assert(conditions[k as int].1@ == conds[k as int].1);
            let holds = i < col.len() && col[i] == conditions[k].1;
            assert(holds == condition_holds(dataframe@, conds[k as int], i as int));
            if !holds {
                ok = false;
            }
            k = k + 1;
        }
        assert(ok == row_matches(dataframe@, conds, i as int));
        proof {
            reveal_with_fuel(Seq::filter, 1);
            assert(all.take(i + 1).drop_last() =~= all.take(i as int));
            assert(all.take(i + 1).last() == i);
        }
        if ok {
            r.push(i);
        }
        i = i + 1;
    }
    assert(all.take(n as int) =~= all);
    r
}

} // verus!
