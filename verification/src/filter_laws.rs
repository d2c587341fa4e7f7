use vstd::prelude::*;

use crate::chained::{
    chain_row_ok, chained_result, chained_rows, condition_headers, header_count, holds_in_table,
    later_conditions_hold, lemma_header_count_step, repeated_rows,
};
use crate::laws::law_distinct_values;
use crate::queries::{
    all_headers_present, combined_occurrences, condition_holds, distinct_in_order, index_range,
    matching_rows, occurrences, paired_match_count, pair_holds, row_matches, shared_positions,
};

verus! {

/// Filtering with two predicates that agree on every element gives the same
/// sequence.
pub proof fn lemma_filter_equiv<A>(s: Seq<A>, p: spec_fn(A) -> bool, q: spec_fn(A) -> bool)
    requires
        forall|i: int| 0 <= i < s.len() ==> p(#[trigger] s[i]) == q(s[i]),
    ensures
        s.filter(p) == s.filter(q),
    decreases s.len(),
{
    reveal_with_fuel(Seq::filter, 1);
    if s.len() > 0 {
        lemma_filter_equiv(s.drop_last(), p, q);
        assert(p(s[s.len() - 1]) == q(s[s.len() - 1]));
    }
}

/// Filtering twice is filtering once by both predicates.
pub proof fn lemma_filter_filter<A>(s: Seq<A>, p: spec_fn(A) -> bool, q: spec_fn(A) -> bool)
    ensures
        s.filter(p).filter(q) == s.filter(|x: A| p(x) && q(x)),
    decreases s.len(),
{
    reveal_with_fuel(Seq::filter, 1);
    if s.len() > 0 {
        lemma_filter_filter(s.drop_last(), p, q);
        let f = s.drop_last().filter(p);
        if p(s.last()) {
            assert(f.push(s.last()).drop_last() =~= f);
        }
    }
}

/// Elements past `m` that fail the predicate do not change the filter.
pub proof fn lemma_filter_prefix<A>(s: Seq<A>, m: int, p: spec_fn(A) -> bool)
    requires
        0 <= m <= s.len(),
        forall|i: int| m <= i < s.len() ==> !p(#[trigger] s[i]),
    ensures
        s.take(m).filter(p) == s.filter(p),
    decreases s.len() - m,
{
    reveal_with_fuel(Seq::filter, 1);
    if m < s.len() {
        let t = s.drop_last();
        assert(!p(s[s.len() - 1]));
        assert(s.take(m) =~= t.take(m));
        lemma_filter_prefix(t, m, p);
    } else {
        assert(s.take(m) =~= s);
    }
}

/// The number of occurrences of `v` grows by one when `x == v` is appended.
proof fn lemma_occurrences_push(c: Seq<Seq<char>>, x: Seq<char>, v: Seq<char>)
    ensures
        occurrences(c.push(x), v).len() == occurrences(c, v).len() + if x == v { 1int } else { 0int },
{
    reveal_with_fuel(Seq::filter, 1);
    assert(c.push(x).drop_last() =~= c);
}

proof fn lemma_occurrences_absent(c: Seq<Seq<char>>, v: Seq<char>)
    requires
        !c.contains(v),
    ensures
        occurrences(c, v).len() == 0,
    decreases c.len(),
{
    reveal_with_fuel(Seq::filter, 1);
    if c.len() > 0 {
        assert(!c.drop_last().contains(v)) by {
            if c.drop_last().contains(v) {
                let k = choose|k: int| 0 <= k < c.drop_last().len() && c.drop_last()[k] == v;
                assert(c[k] == v);
            }
        }
        assert(c.last() != v) by {
            assert(c[c.len() - 1] == c.last());
        }
        lemma_occurrences_absent(c.drop_last(), v);
    }
}

/// The occurrences in `col` of each value in `vals`, added up.
pub open spec fn occurrence_sum(col: Seq<Seq<char>>, vals: Seq<Seq<char>>) -> int
    decreases vals.len(),
{
    if vals.len() == 0 {
        0
    } else {
        occurrence_sum(col, vals.drop_last()) + occurrences(col, vals.last()).len()
    }
}

proof fn lemma_occurrence_sum_push(c: Seq<Seq<char>>, x: Seq<char>, vals: Seq<Seq<char>>)
    requires
        vals.no_duplicates(),
    ensures
        occurrence_sum(c.push(x), vals) == occurrence_sum(c, vals) + if vals.contains(x) { 1int } else { 0int },
    decreases vals.len(),
{
    if vals.len() > 0 {
        let init = vals.drop_last();
        assert(init.no_duplicates());
        lemma_occurrence_sum_push(c, x, init);
        lemma_occurrences_push(c, x, vals.last());
        assert(vals.contains(x) <==> (init.contains(x) || vals.last() == x)) by {
            if vals.contains(x) {
                let k = choose|k: int| 0 <= k < vals.len() && vals[k] == x;
                if k < vals.len() - 1 {
                    assert(init[k] == x);
                }
            }
            if init.contains(x) {
                let k = choose|k: int| 0 <= k < init.len() && init[k] == x;
                assert(vals[k] == x);
            }
            assert(vals[vals.len() - 1] == vals.last());
        }
        assert(!(init.contains(x) && vals.last() == x)) by {
            if init.contains(x) && vals.last() == x {
                let k = choose|k: int| 0 <= k < init.len() && init[k] == x;
                assert(vals[k] == vals[vals.len() - 1]);
            }
        }
    }
}

/// The occurrences of a column's distinct values add up to the column's
/// length: the distinct values split the column.
pub proof fn law_unique_counts_partition(col: Seq<Seq<char>>)
    ensures
        occurrence_sum(col, distinct_in_order(col)) == col.len(),
    decreases col.len(),
{
    if col.len() > 0 {
        let c = col.drop_last();
        let x = col.last();
        assert(col == c.push(x)) by {
            assert(col =~= c.push(x));
        }
        law_unique_counts_partition(c);
        law_distinct_values(c);
        let d = distinct_in_order(c);
        lemma_occurrence_sum_push(c, x, d);
        if !d.contains(x) {
            assert(!c.contains(x));
            lemma_occurrences_absent(c, x);
            lemma_occurrences_push(c, x, x);
            assert(d.push(x).drop_last() =~= d);
            lemma_occurrence_sum_push(c, x, d);
        }
    }
}

/// A sequence without repeats is its own distinct values.
pub proof fn lemma_distinct_of_unique(s: Seq<Seq<char>>)
    requires
        s.no_duplicates(),
    ensures
        distinct_in_order(s) == s,
    decreases s.len(),
{
    if s.len() > 0 {
        let init = s.drop_last();
        assert(init.no_duplicates());
        lemma_distinct_of_unique(init);
        assert(!init.contains(s.last())) by {
            if init.contains(s.last()) {
                let k = choose|k: int| 0 <= k < init.len() && init[k] == s.last();
                assert(s[k] == s[s.len() - 1]);
            }
        }
        assert(init.push(s.last()) =~= s);
    }
}

/// Taking the distinct values of each column twice changes nothing.
pub proof fn law_unique_values_idempotent(df: Map<Seq<char>, Seq<Seq<char>>>)
    ensures
        df.map_values(|col: Seq<Seq<char>>| distinct_in_order(col)).map_values(
            |col: Seq<Seq<char>>| distinct_in_order(col),
        ) == df.map_values(|col: Seq<Seq<char>>| distinct_in_order(col)),
{
    let u = df.map_values(|col: Seq<Seq<char>>| distinct_in_order(col));
    assert forall|h: Seq<char>| u.contains_key(h) implies distinct_in_order(u[h]) == u[h] by {
        law_distinct_values(df[h]);
        lemma_distinct_of_unique(u[h]);
    }
    assert(u.map_values(|col: Seq<Seq<char>>| distinct_in_order(col)) =~= u);
}

/// Lists of conditions with the same members find the same rows, whatever
/// their order and whichever comes first.
pub proof fn law_matching_rows_order_free(
    df: Map<Seq<char>, Seq<Seq<char>>>,
    a: Seq<(Seq<char>, Seq<char>)>,
    b: Seq<(Seq<char>, Seq<char>)>,
)
    requires
        a.len() > 0,
        b.len() > 0,
        forall|c: (Seq<char>, Seq<char>)| a.contains(c) <==> b.contains(c),
        forall|h: Seq<char>| #[trigger] df.contains_key(h) ==> df[h].len() <= usize::MAX,
    ensures
        matching_rows(df, a) == matching_rows(df, b),
{
    assert(all_headers_present(df, a) == all_headers_present(df, b)) by {
        if all_headers_present(df, a) {
            assert forall|k: int| 0 <= k < b.len() implies #[trigger] df.contains_key(b[k].0) by {
                assert(b.contains(b[k]));
                let j = choose|j: int| 0 <= j < a.len() && a[j] == b[k];
                assert(df.contains_key(a[j].0));
            }
        }
        if all_headers_present(df, b) {
            assert forall|k: int| 0 <= k < a.len() implies #[trigger] df.contains_key(a[k].0) by {
                assert(a.contains(a[k]));
                let j = choose|j: int| 0 <= j < b.len() && b[j] == a[k];
                assert(df.contains_key(b[j].0));
            }
        }
    }
    if all_headers_present(df, a) {
        assert forall|i: int| row_matches(df, a, i) == row_matches(df, b, i) by {
            if row_matches(df, a, i) {
                assert forall|k: int| 0 <= k < b.len() implies #[trigger] condition_holds(df, b[k], i) by {
                    assert(b.contains(b[k]));
                    let j = choose|j: int| 0 <= j < a.len() && a[j] == b[k];
                    assert(condition_holds(df, a[j], i));
                }
            }
            if row_matches(df, b, i) {
                assert forall|k: int| 0 <= k < a.len() implies #[trigger] condition_holds(df, a[k], i) by {
                    assert(a.contains(a[k]));
                    let j = choose|j: int| 0 <= j < b.len() && b[j] == a[k];
                    assert(condition_holds(df, b[j], i));
                }
            }
        }
        let p = |i: usize| row_matches(df, a, i as int);
        let q = |i: usize| row_matches(df, b, i as int);
        let na = df[a[0].0].len();
        let nb = df[b[0].0].len();
        let m = if na <= nb { na } else { nb };
        let ra = index_range(na);
        let rb = index_range(nb);
        // Every matching row lies below both first columns' lengths.
        assert(b.contains(a[0]) && a.contains(b[0]));
        let ja = choose|j: int| 0 <= j < b.len() && b[j] == a[0];
        let jb = choose|j: int| 0 <= j < a.len() && a[j] == b[0];
        assert forall|i: int| m <= i < ra.len() implies !p(#[trigger] ra[i]) by {
            assert(df.contains_key(a[0].0));
            assert(ra[i] as int == i);
            if p(ra[i]) {
                assert(condition_holds(df, a[jb], i));
            }
        }
        assert forall|i: int| m <= i < rb.len() implies !q(#[trigger] rb[i]) by {
            assert(df.contains_key(b[0].0));
            assert(rb[i] as int == i);
            if q(rb[i]) {
                assert(condition_holds(df, b[ja], i));
            }
        }
        lemma_filter_prefix(ra, m as int, p);
        lemma_filter_prefix(rb, m as int, q);
        assert(ra.take(m as int) =~= rb.take(m as int));
        lemma_filter_equiv(ra.take(m as int), p, q);
        assert(matching_rows(df, a) == ra.filter(p));
        assert(matching_rows(df, b) == rb.filter(q));
    }
}

/// Filtering for a value pair is the same whichever table and header come
/// first, when the headers differ.
pub proof fn law_combined_occurrences_symmetric(
    df1: Map<Seq<char>, Seq<Seq<char>>>,
    df2: Map<Seq<char>, Seq<Seq<char>>>,
    header1: Seq<char>,
    value1: Seq<char>,
    header2: Seq<char>,
    value2: Seq<char>,
)
    requires
        header1 != header2,
    ensures
        combined_occurrences(df1, df2, header1, value1, header2, value2) == combined_occurrences(
            df2,
            df1,
            header2,
            value2,
            header1,
            value1,
        ),
{
    if df1.contains_key(header1) && df2.contains_key(header2) {
        let c1 = df1[header1];
        let c2 = df2[header2];
        let r = shared_positions(c1, c2);
        assert(shared_positions(c2, c1) == r);
        lemma_filter_equiv(
            r,
            |i: int| pair_holds(c1, c2, value1, value2, i),
            |i: int| pair_holds(c2, c1, value2, value1, i),
        );
        assert(paired_match_count(c1, c2, value1, value2) == paired_match_count(c2, c1, value2, value1));
    }
    assert(combined_occurrences(df1, df2, header1, value1, header2, value2) =~~= combined_occurrences(
        df2,
        df1,
        header2,
        value2,
        header1,
        value1,
    ));
}

/// The values of `col` at `rows`, in order.
pub open spec fn values_at(col: Seq<Seq<char>>, rows: Seq<int>) -> Seq<Seq<char>> {
    rows.map_values(|i: int| col[i])
}

/// Row indices as integers.
pub open spec fn rows_as_int(rows: Seq<usize>) -> Seq<int> {
    rows.map_values(|u: usize| u as int)
}

proof fn lemma_repeated_once(col: Seq<Seq<char>>, rows: Seq<int>)
    ensures
        repeated_rows(col, rows, 1) == values_at(col, rows),
    decreases rows.len(),
{
    if rows.len() > 0 {
        lemma_repeated_once(col, rows.drop_last());
        assert(repeated_rows(col, rows, 1) =~= values_at(col, rows));
    } else {
        assert(values_at(col, rows) =~= Seq::<Seq<char>>::empty());
    }
}

proof fn lemma_header_count_upto(conds: Seq<(Seq<char>, Seq<char>)>, h: Seq<char>, m: int)
    requires
        condition_headers(conds).no_duplicates(),
        0 <= m <= conds.len(),
    ensures
        header_count(conds.take(m), h) == if exists|j: int| 0 <= j < m && #[trigger] conds[j].0 == h {
            1int
        } else {
            0int
        },
    decreases m,
{
    if m == 0 {
        reveal_with_fuel(Seq::filter, 1);
        assert(conds.take(0) =~= Seq::<(Seq<char>, Seq<char>)>::empty());
    } else {
        lemma_header_count_upto(conds, h, m - 1);
        lemma_header_count_step(conds, m - 1, h);
        if conds[m - 1].0 == h {
            assert forall|j: int| 0 <= j < m - 1 implies #[trigger] conds[j].0 != h by {
                assert(condition_headers(conds)[j] == conds[j].0);
                assert(condition_headers(conds)[m - 1] == conds[m - 1].0);
            }
        } else {
            if exists|j: int| 0 <= j < m && #[trigger] conds[j].0 == h {
                let j = choose|j: int| 0 <= j < m && #[trigger] conds[j].0 == h;
                assert(j < m - 1);
            }
        }
    }
}

/// With no header named twice, each condition's header is named once.
proof fn lemma_header_count_distinct(conds: Seq<(Seq<char>, Seq<char>)>, k: int)
    requires
        condition_headers(conds).no_duplicates(),
        0 <= k < conds.len(),
    ensures
        header_count(conds, conds[k].0) == 1,
{
    lemma_header_count_upto(conds, conds[k].0, conds.len() as int);
    assert(conds.take(conds.len() as int) =~= conds);
}

/// With no header named twice, the chained filter gives, under each
/// condition's header, the first table's values at the kept rows.
pub proof fn law_chained_columns(dfs: Seq<Map<Seq<char>, Seq<Seq<char>>>>, conds: Seq<(Seq<char>, Seq<char>)>)
    requires
        condition_headers(conds).no_duplicates(),
    ensures
        forall|k: int|
            0 <= k < conds.len() ==> #[trigger] chained_result(dfs, conds)[conds[k].0] == values_at(
                dfs[0][conds[k].0],
                chained_rows(dfs, conds),
            ),
{
    assert forall|k: int| 0 <= k < conds.len() implies #[trigger] chained_result(dfs, conds)[conds[k].0]
        == values_at(dfs[0][conds[k].0], chained_rows(dfs, conds)) by {
        assert(condition_headers(conds)[k] == conds[k].0);
        lemma_header_count_distinct(conds, k);
        lemma_repeated_once(dfs[0][conds[k].0], chained_rows(dfs, conds));
    }
}

/// Adding a condition to the chained filter only removes rows: it keeps
/// exactly the rows kept before that also meet the new condition.
pub proof fn law_chained_added_condition(
    dfs: Seq<Map<Seq<char>, Seq<Seq<char>>>>,
    conds: Seq<(Seq<char>, Seq<char>)>,
    c: (Seq<char>, Seq<char>),
)
    requires
        conds.len() >= 1,
        dfs.len() >= conds.len() + 1,
    ensures
        chained_rows(dfs, conds.push(c)) == chained_rows(dfs, conds).filter(
            |i: int| holds_in_table(dfs, conds.push(c), conds.len() as int, i),
        ),
{
    reveal_with_fuel(Seq::filter, 1);
    let c2 = conds.push(c);
    let n = conds.len() as int;
    assert(c2[0] == conds[0]);
    if !dfs[0].contains_key(conds[0].0) {
        assert(chained_rows(dfs, conds) =~= Seq::<int>::empty());
        assert(chained_rows(dfs, c2) =~= Seq::<int>::empty());
        return;
    }
    let base = Seq::new(dfs[0][conds[0].0].len(), |i: int| i);
    let p = |i: int| chain_row_ok(dfs, conds, i);
    let q = |i: int| holds_in_table(dfs, c2, n, i);
    let p2 = |i: int| chain_row_ok(dfs, c2, i);
    lemma_filter_filter(base, p, q);
    assert forall|j: int| 0 <= j < base.len() implies (|x: int| p(x) && q(x))(#[trigger] base[j]) == p2(base[j]) by {
        let i = base[j];
        assert forall|t: int| 0 <= t < n implies #[trigger] holds_in_table(dfs, c2, t, i) == holds_in_table(dfs, conds, t, i) by {
            assert(c2[t] == conds[t]);
        }
        if later_conditions_hold(dfs, c2, i, n + 1) {
            assert forall|t: int| 1 <= t < n implies #[trigger] holds_in_table(dfs, conds, t, i) by {
                assert(holds_in_table(dfs, c2, t, i));
            }
            assert(holds_in_table(dfs, c2, n, i));
        }
        if later_conditions_hold(dfs, conds, i, n) && q(i) {
            assert forall|t: int| 1 <= t < n + 1 implies #[trigger] holds_in_table(dfs, c2, t, i) by {
                if t < n {
                    assert(holds_in_table(dfs, conds, t, i));
                }
            }
        }
    }
    lemma_filter_equiv(base, |x: int| p(x) && q(x), p2);
    assert(chained_rows(dfs, conds) == base.filter(p));
    assert(chained_rows(dfs, c2) == base.filter(p2));
}

/// With a condition added and no header named twice, each earlier
/// condition's column holds the values at the rows kept before that meet the
/// new condition, so it is never longer than before.
pub proof fn law_chained_added_condition_columns(
    dfs: Seq<Map<Seq<char>, Seq<Seq<char>>>>,
    conds: Seq<(Seq<char>, Seq<char>)>,
    c: (Seq<char>, Seq<char>),
)
    requires
        conds.len() >= 1,
        dfs.len() >= conds.len() + 1,
        condition_headers(conds.push(c)).no_duplicates(),
    ensures
        forall|k: int|
            0 <= k < conds.len() ==> {
                &&& chained_result(dfs, conds)[conds[k].0] == values_at(dfs[0][conds[k].0], chained_rows(dfs, conds))
                &&& #[trigger] chained_result(dfs, conds.push(c))[conds[k].0] == values_at(
                    dfs[0][conds[k].0],
                    chained_rows(dfs, conds).filter(|i: int| holds_in_table(dfs, conds.push(c), conds.len() as int, i)),
                )
                &&& chained_result(dfs, conds.push(c))[conds[k].0].len() <= chained_result(dfs, conds)[conds[k].0].len()
            },
{
    broadcast use vstd::seq_lib::group_filter_ensures;
    let c2 = conds.push(c);
    assert(condition_headers(conds) =~= condition_headers(c2).drop_last());
    assert(condition_headers(conds).no_duplicates());
    law_chained_columns(dfs, conds);
    law_chained_columns(dfs, c2);
    law_chained_added_condition(dfs, conds, c);
    assert forall|k: int| 0 <= k < conds.len() implies {
        &&& chained_result(dfs, conds)[conds[k].0] == values_at(dfs[0][conds[k].0], chained_rows(dfs, conds))
        &&& #[trigger] chained_result(dfs, c2)[conds[k].0] == values_at(
            dfs[0][conds[k].0],
            chained_rows(dfs, conds).filter(|i: int| holds_in_table(dfs, c2, conds.len() as int, i)),
        )
        &&& chained_result(dfs, c2)[conds[k].0].len() <= chained_result(dfs, conds)[conds[k].0].len()
    } by {
        assert(c2[k] == conds[k]);
        assert(chained_result(dfs, c2)[c2[k].0] == values_at(dfs[0][c2[k].0], chained_rows(dfs, c2)));
    }
}

proof fn lemma_range_filter_as_int(
    k: nat,
    p: spec_fn(int) -> bool,
    q: spec_fn(usize) -> bool,
)
    requires
        k <= usize::MAX + 1,
        forall|i: int| 0 <= i < k ==> #[trigger] p(i) == q(i as usize),
    ensures
        Seq::new(k, |i: int| i).filter(p) == rows_as_int(index_range(k).filter(q)),
    decreases k,
{
    reveal_with_fuel(Seq::filter, 1);
    if k == 0 {
        assert(rows_as_int(index_range(k).filter(q)) =~= Seq::<int>::empty());
    } else {
        let m = (k - 1) as nat;
        lemma_range_filter_as_int(m, p, q);
        assert(Seq::new(k, |i: int| i).drop_last() =~= Seq::new(m, |i: int| i));
        assert(index_range(k).drop_last() =~= index_range(m));
        assert(p(m as int) == q(m as usize));
        assert((m as usize) as int == m);
        let f = index_range(m).filter(q);
        if q(m as usize) {
            assert(rows_as_int(f.push(m as usize)) =~= rows_as_int(f).push(m as int));
        }
    }
}

/// Over copies of one table, the chained filter keeps exactly the rows that
/// `find_matching_rows` finds for the same conditions.
pub proof fn law_chained_one_table_rows(
    df: Map<Seq<char>, Seq<Seq<char>>>,
    dfs: Seq<Map<Seq<char>, Seq<Seq<char>>>>,
    conds: Seq<(Seq<char>, Seq<char>)>,
)
    requires
        conds.len() >= 1,
        dfs.len() >= conds.len(),
        forall|j: int| 0 <= j < dfs.len() ==> #[trigger] dfs[j] == df,
        all_headers_present(df, conds),
        forall|h: Seq<char>| #[trigger] df.contains_key(h) ==> df[h].len() <= usize::MAX,
    ensures
        chained_rows(dfs, conds) == rows_as_int(matching_rows(df, conds)),
{
    let n0 = df[conds[0].0].len();
    assert(df.contains_key(conds[0].0));
    assert(dfs[0] == df);
    let p = |i: int| chain_row_ok(dfs, conds, i);
    let q = |u: usize| row_matches(df, conds, u as int);
    assert forall|i: int| 0 <= i < n0 implies #[trigger] p(i) == q(i as usize) by {
        assert((i as usize) as int == i);
        if row_matches(df, conds, i) {
            assert(condition_holds(df, conds[0], i));
            assert forall|j: int| 1 <= j < conds.len() implies #[trigger] holds_in_table(dfs, conds, j, i) by {
                assert(dfs[j] == df);
                assert(df.contains_key(conds[j].0));
                assert(condition_holds(df, conds[j], i));
            }
        }
        if chain_row_ok(dfs, conds, i) {
            assert forall|j: int| 0 <= j < conds.len() implies #[trigger] condition_holds(df, conds[j], i) by {
                if j > 0 {
                    assert(holds_in_table(dfs, conds, j, i));
                    assert(dfs[j] == df);
                }
            }
        }
    }
    lemma_range_filter_as_int(n0, p, q);
}

/// Over copies of one table, with no header named twice, the chained filter
/// gives under each condition's header that table's values at the rows that
/// `find_matching_rows` finds.
pub proof fn law_chained_one_table_columns(
    df: Map<Seq<char>, Seq<Seq<char>>>,
    dfs: Seq<Map<Seq<char>, Seq<Seq<char>>>>,
    conds: Seq<(Seq<char>, Seq<char>)>,
)
    requires
        conds.len() >= 1,
        dfs.len() >= conds.len(),
        forall|j: int| 0 <= j < dfs.len() ==> #[trigger] dfs[j] == df,
        all_headers_present(df, conds),
        forall|h: Seq<char>| #[trigger] df.contains_key(h) ==> df[h].len() <= usize::MAX,
        condition_headers(conds).no_duplicates(),
    ensures
        forall|k: int|
            0 <= k < conds.len() ==> #[trigger] chained_result(dfs, conds)[conds[k].0] == values_at(
                df[conds[k].0],
                rows_as_int(matching_rows(df, conds)),
            ),
{
    law_chained_one_table_rows(df, dfs, conds);
    law_chained_columns(dfs, conds);
    assert(dfs[0] == df);
}

/// Filtering two columns of one table together for a value pair gives the
/// same table as the chained filter over two copies of it, when the headers
/// differ and the columns have the same length.
pub proof fn law_combined_is_chained(
    df: Map<Seq<char>, Seq<Seq<char>>>,
    header1: Seq<char>,
    value1: Seq<char>,
    header2: Seq<char>,
    value2: Seq<char>,
)
    requires
        header1 != header2,
        df.contains_key(header1),
        df.contains_key(header2),
        df[header1].len() == df[header2].len(),
    ensures
        combined_occurrences(df, df, header1, value1, header2, value2) == chained_result(
            seq![df, df],
            seq![(header1, value1), (header2, value2)],
        ),
{
    broadcast use vstd::seq_lib::group_filter_ensures;
    let dfs = seq![df, df];
    let conds = seq![(header1, value1), (header2, value2)];
    let c1 = df[header1];
    let c2 = df[header2];
    let base = shared_positions(c1, c2);
    assert(base == Seq::new(c1.len(), |i: int| i));
    let p = |i: int| pair_holds(c1, c2, value1, value2, i);
    let p2 = |i: int| chain_row_ok(dfs, conds, i);
    assert forall|j: int| 0 <= j < base.len() implies p(#[trigger] base[j]) == p2(base[j]) by {
        let i = base[j];
        assert(conds[0] == (header1, value1) && conds[1] == (header2, value2));
        if p2(i) {
            assert(holds_in_table(dfs, conds, 1, i));
        }
        if p(i) {
            assert forall|t: int| 1 <= t < 2 implies #[trigger] holds_in_table(dfs, conds, t, i) by {
                assert(t == 1);
            }
        }
    }
    lemma_filter_equiv(base, p, p2);
    let rows = chained_rows(dfs, conds);
    assert(rows == base.filter(p));
    let count = paired_match_count(c1, c2, value1, value2);
    assert(rows.len() == count);
    assert(condition_headers(conds) =~= seq![header1, header2]);
    assert(condition_headers(conds).no_duplicates());
    law_chained_columns(dfs, conds);
    assert(values_at(c1, rows) =~= Seq::new(count, |j: int| value1)) by {
        assert forall|j: int| 0 <= j < rows.len() implies #[trigger] c1[rows[j]] == value1 by {
            assert(p(base.filter(p)[j]));
        }
    }
    assert(values_at(c2, rows) =~= Seq::new(count, |j: int| value2)) by {
        assert forall|j: int| 0 <= j < rows.len() implies #[trigger] c2[rows[j]] == value2 by {
            assert(p(base.filter(p)[j]));
        }
    }
    let lhs = combined_occurrences(df, df, header1, value1, header2, value2);
    let rhs = chained_result(dfs, conds);
    assert(rhs[header1] == values_at(c1, rows)) by {
        assert(conds[0].0 == header1);
    }
    assert(rhs[header2] == values_at(c2, rows)) by {
        assert(conds[1].0 == header2);
    }
    assert forall|h: Seq<char>| #[trigger] rhs.contains_key(h) <==> (h == header1 || h == header2) by {
        assert(condition_headers(conds)[0] == header1);
        assert(condition_headers(conds)[1] == header2);
    }
    assert(lhs =~~= rhs);
}

} // verus!
