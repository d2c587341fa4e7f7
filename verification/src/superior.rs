use vstd::prelude::*;

use crate::combinatorics::{combine_superior_rules, lemma_upper_pair_at, upper_pairs};
use crate::frame::DataFrame;
use crate::mining::RuleCounts;
use crate::queries::{find_matching_rows, matching_rows};
use crate::rules::{get_rules_info, meets_min_support, pair_rule, pair_rule_text, parse_rule, reaches_min_support};
use crate::text::{lemma_split_nonempty, split_on};

verus! {

/// The header-value conditions of one side of a combined rule: the first two
/// fields of each of its pieces.
pub open spec fn part_conditions(part: Seq<Seq<Seq<char>>>) -> Seq<(Seq<char>, Seq<char>)> {
    part.map_values(|f: Seq<Seq<char>>| (f[0], f[1]))
}

/// The conditions of both sides of a combined rule, left side first.
pub open spec fn combo_conditions(combo: Seq<Seq<Seq<Seq<char>>>>) -> Seq<(Seq<char>, Seq<char>)> {
    part_conditions(combo[0]) + part_conditions(combo[1])
}

/// `s` joined with `sep` between consecutive entries.
pub open spec fn joined(s: Seq<Seq<char>>, sep: Seq<char>) -> Seq<char>
    decreases s.len(),
{
    if s.len() == 0 {
        Seq::empty()
    } else if s.len() == 1 {
        s[0]
    } else {
        joined(s.drop_last(), sep) + sep + s.last()
    }
}

/// A piece written as `header:value`.
pub open spec fn piece_text(f: Seq<Seq<char>>) -> Seq<char> {
    f[0] + seq![':'] + f[1]
}

/// One side of a combined rule written as its pieces joined by ` - `.
pub open spec fn part_text(part: Seq<Seq<Seq<char>>>) -> Seq<char> {
    joined(part.map_values(|f: Seq<Seq<char>>| piece_text(f)), seq![' ', '-', ' '])
}

/// A combined rule written as `NX=(left) & NY=(right)`.
pub open spec fn superior_rule_text(combo: Seq<Seq<Seq<Seq<char>>>>) -> Seq<char> {
    seq!['N', 'X', '=', '('] + part_text(combo[0]) + seq![')', ' ', '&', ' ', 'N', 'Y', '=', '(']
        + part_text(combo[1]) + seq![')']
}

/// A combined rule as plain values: its text and its four counts.
pub type SuperiorStatsView = (Seq<char>, int, int, int, int);

/// The text and counts of a combined rule: rows meeting its left side, its
/// right side, both, and the rows of the table under its first header.
pub open spec fn combo_stats(
    df: Map<Seq<char>, Seq<Seq<char>>>,
    combo: Seq<Seq<Seq<Seq<char>>>>,
) -> SuperiorStatsView {
    (
        superior_rule_text(combo),
        matching_rows(df, part_conditions(combo[0])).len() as int,
        matching_rows(df, part_conditions(combo[1])).len() as int,
        matching_rows(df, combo_conditions(combo)).len() as int,
        df[combo[0][0][0]].len() as int,
    )
}

/// The rules of a round, each parsed into pieces and fields.
pub open spec fn parsed_rules(rules: Seq<Seq<char>>) -> Seq<Seq<Seq<Seq<char>>>> {
    rules.map_values(|rule: Seq<char>| parse_rule(rule))
}

/// The combined rules of a round: each rule paired with each rule after it.
pub open spec fn round_combos(rules: Seq<Seq<char>>) -> Seq<Seq<Seq<Seq<Seq<char>>>>> {
    upper_pairs(parsed_rules(rules))
}

/// The text and counts of every combined rule of a round.
pub open spec fn round_stats(df: Map<Seq<char>, Seq<Seq<char>>>, rules: Seq<Seq<char>>) -> Seq<SuperiorStatsView> {
    round_combos(rules).map_values(|c: Seq<Seq<Seq<Seq<char>>>>| combo_stats(df, c))
}

/// The rules kept from the combined rules `combos`: for each one whose
/// support reaches the minimum, the rule of its first two conditions.
pub open spec fn round_kept(
    df: Map<Seq<char>, Seq<Seq<char>>>,
    combos: Seq<Seq<Seq<Seq<Seq<char>>>>>,
) -> Seq<Seq<char>>
    decreases combos.len(),
{
    if combos.len() == 0 {
        Seq::empty()
    } else {
        let init = round_kept(df, combos.drop_last());
        let c = combos.last();
        let st = combo_stats(df, c);
        if reaches_min_support(st.3, st.4) {
            let conds = combo_conditions(c);
            init.push(pair_rule_text(conds[0].0, conds[0].1, conds[1].0, conds[1].1))
        } else {
            init
        }
    }
}

/// The number of pieces over all parsed rules.
pub open spec fn piece_total(parsed: Seq<Seq<Seq<Seq<char>>>>) -> int
    decreases parsed.len(),
{
    if parsed.len() == 0 {
        0
    } else {
        piece_total(parsed.drop_last()) + parsed.last().len()
    }
}

/// The rounds that run to their end: with two rules or more, every piece of
/// every rule has a header and a value, and the first header of each rule
/// but the last names a column of the table.
pub open spec fn round_defined(df: Map<Seq<char>, Seq<Seq<char>>>, rules: Seq<Seq<char>>) -> bool {
    let parsed = parsed_rules(rules);
    rules.len() < 2 || {
        &&& forall|i: int, p: int|
            0 <= i < parsed.len() && 0 <= p < parsed[i].len() ==> (#[trigger] parsed[i][p]).len() >= 2
        &&& forall|i: int| 0 <= i < parsed.len() - 1 ==> df.contains_key(#[trigger] parsed[i][0][0])
    }
}

/// A combined rule of a round, with its text and counts.
#[derive(Debug)]
pub struct SuperiorStats {
    pub text: String,
    pub counts: RuleCounts,
}

impl DeepView for SuperiorStats {
    type V = SuperiorStatsView;

    open spec fn deep_view(&self) -> SuperiorStatsView {
        (
            self.text@,
            self.counts.count_x as int,
            self.counts.count_y as int,
            self.counts.count_xy as int,
            self.counts.total as int,
        )
    }
}

/// The outcome of a round over the rules kept so far.
#[derive(Debug)]
pub struct SuperiorRound {
    /// Every combined rule with its counts, in order.
    pub stats: Vec<SuperiorStats>,
    /// The rules kept for the next round.
    pub kept: Vec<String>,
    /// The number of header-value pieces in the rules the round started from.
    pub piece_count: usize,
}

/// The conditions of one side of a combined rule.
pub fn part_conditions_of(part: &Vec<Vec<String>>) -> (r: Vec<(String, String)>)
    requires
        forall|p: int| 0 <= p < part.len() ==> (#[trigger] part[p]).len() >= 2,
    ensures
        r.deep_view() == part_conditions(part.deep_view()),
{
    let mut conditions_vec: Vec<(String, String)> = Vec::new();
    let mut k: usize = 0;
    while k < part.len()
        invariant
            k <= part.len(),
            forall|p: int| 0 <= p < part.len() ==> (#[trigger] part[p]).len() >= 2,
            conditions_vec.deep_view() == part_conditions(part.deep_view().take(k as int)),
        decreases part.len() - k,
    {
        let header_value = &part[k];
        assert(header_value.len() >= 2);
        let cond = (header_value[0].clone(), header_value[1].clone());
        let ghost before = conditions_vec.deep_view();
        conditions_vec.push(cond);
        assert(conditions_vec.deep_view() == before.push(cond.deep_view()));
        assert(conditions_vec.deep_view() =~~= part_conditions(part.deep_view().take(k + 1)));
        k = k + 1;
    }
    assert(part.deep_view().take(part.len() as int) =~= part.deep_view());
    conditions_vec
}

/// One side of a combined rule written as its pieces joined by ` - `.
pub fn part_text_of(part: &Vec<Vec<String>>) -> (r: String)
    requires
        forall|p: int| 0 <= p < part.len() ==> (#[trigger] part[p]).len() >= 2,
    ensures
        r@ == part_text(part.deep_view()),
{
    let colon = ":";
    let separator = " - ";
    proof {
        reveal_strlit(":");
        reveal_strlit(" - ");
    }
    let ghost pieces = part.deep_view().map_values(|f: Seq<Seq<char>>| piece_text(f));
    let mut r = String::new();
    let mut k: usize = 0;
    assert(pieces.take(0) =~= Seq::<Seq<char>>::empty());
    while k < part.len()
        invariant
            k <= part.len(),
            colon@ == seq![':'],
            separator@ == seq![' ', '-', ' '],
            pieces == part.deep_view().map_values(|f: Seq<Seq<char>>| piece_text(f)),
            forall|p: int| 0 <= p < part.len() ==> (#[trigger] part[p]).len() >= 2,
            r@ == joined(pieces.take(k as int), seq![' ', '-', ' ']),
        decreases part.len() - k,
    {
        let header_value = &part[k];
        assert(header_value.len() >= 2);
        assert(header_value.deep_view() == part.deep_view()[k as int]);
        let ghost before = r@;
        if k > 0 {
            r.append(separator);
        }
        r.append(header_value[0].as_str());
        r.append(colon);
        r.append(header_value[1].as_str());
        assert(pieces[k as int] == piece_text(header_value.deep_view()));
        assert(pieces.take(k + 1).drop_last() =~= pieces.take(k as int));
        if k > 0 {
            assert(r@ =~= joined(pieces.take(k + 1), seq![' ', '-', ' ']));
        } else {
            assert(r@ =~= joined(pieces.take(k + 1), seq![' ', '-', ' ']));
        }
        k = k + 1;
    }
    assert(pieces.take(part.len() as int) =~= pieces);
    r
}

/// A combined rule written as `NX=(left) & NY=(right)`.
pub fn superior_text_of(rule: &Vec<Vec<Vec<String>>>) -> (r: String)
    requires
        rule.len() == 2,
        forall|x: int, p: int| 0 <= x < 2 && 0 <= p < rule[x].len() ==> (#[trigger] rule[x][p]).len() >= 2,
    ensures
        r@ == superior_rule_text(rule.deep_view()),
{
    let open_x = "NX=(";
    let middle = ") & NY=(";
    let close = ")";
    proof {
        reveal_strlit("NX=(");
        reveal_strlit(") & NY=(");
        reveal_strlit(")");
    }
    assert(forall|p: int| 0 <= p < rule[0].len() ==> (#[trigger] rule[0][p]).len() >= 2);
    assert(forall|p: int| 0 <= p < rule[1].len() ==> (#[trigger] rule[1][p]).len() >= 2);
    let left = part_text_of(&rule[0]);
    let right = part_text_of(&rule[1]);
    let mut r = String::from_str(open_x);
    r.append(left.as_str());
    r.append(middle);
    r.append(right.as_str());
    r.append(close);
    assert(r@ =~= superior_rule_text(rule.deep_view()));
    r
}

proof fn lemma_parsed_nonempty(rules: Seq<Seq<char>>)
    ensures
        forall|i: int| 0 <= i < rules.len() ==> (#[trigger] parsed_rules(rules)[i]).len() >= 1,
        forall|i: int, p: int|
            0 <= i < rules.len() && 0 <= p < parsed_rules(rules)[i].len() ==> (
            #[trigger] parsed_rules(rules)[i][p]).len() >= 1,
{
    assert forall|i: int| 0 <= i < rules.len() implies (#[trigger] parsed_rules(rules)[i]).len() >= 1 by {
        lemma_split_nonempty(rules[i], '-');
    }
    assert forall|i: int, p: int|
        0 <= i < rules.len() && 0 <= p < parsed_rules(rules)[i].len() implies (
        #[trigger] parsed_rules(rules)[i][p]).len() >= 1 by {
        lemma_split_nonempty(split_on(rules[i], '-')[p], ':');
    }
}

proof fn lemma_piece_total_step(parsed: Seq<Seq<Seq<Seq<char>>>>, i: int)
    requires
        0 <= i < parsed.len(),
    ensures
        piece_total(parsed.take(i + 1)) == piece_total(parsed.take(i)) + parsed[i].len(),
{
    assert(parsed.take(i + 1).drop_last() =~= parsed.take(i));
}

/// Runs one round over the rules kept so far: pairs each rule with each rule
/// after it, counts the rows meeting the left side, the right side and both,
/// keeps the rule of the first two conditions of each pairing whose support
/// reaches the minimum, and counts the pieces of the rules it started from.
pub fn superior_round(df: &DataFrame, rules: &Vec<String>) -> (r: SuperiorRound)
    requires
        round_defined(df@, rules.deep_view()),
    ensures
        r.stats.deep_view() == round_stats(df@, rules.deep_view()),
        r.kept.deep_view() == round_kept(df@, round_combos(rules.deep_view())),
        r.piece_count == piece_total(parsed_rules(rules.deep_view())),
{
    let ghost parsed = parsed_rules(rules.deep_view());
    let unbundled_rules = get_rules_info(rules);
    assert(unbundled_rules.deep_view() == parsed);
    let combined_rules = combine_superior_rules(&unbundled_rules);
    let ghost combos = combined_rules.deep_view();
    assert(combos == round_combos(rules.deep_view()));
    proof {
        lemma_parsed_nonempty(rules.deep_view());
    }
    let mut stats: Vec<SuperiorStats> = Vec::new();
    let mut kept: Vec<String> = Vec::new();
    let mut c: usize = 0;
    while c < combined_rules.len()
        invariant
            c <= combined_rules.len(),
            combos == combined_rules.deep_view(),
            combos == upper_pairs(parsed),
            parsed == parsed_rules(rules.deep_view()),
            parsed.len() == rules.len(),
            round_defined(df@, rules.deep_view()),
            forall|i: int| 0 <= i < rules.len() ==> (#[trigger] parsed[i]).len() >= 1,
            stats.deep_view() == combos.take(c as int).map_values(
                |x: Seq<Seq<Seq<Seq<char>>>>| combo_stats(df@, x),
            ),
            kept.deep_view() == round_kept(df@, combos.take(c as int)),
        decreases combined_rules.len() - c,
    {
        let rule = &combined_rules[c];
        let ghost combo = combos[c as int];
        assert(rule.deep_view() == combo);
        let ghost ij = lemma_upper_pair_at(parsed, c as int);
        let ghost i0 = ij.0;
        let ghost i1 = ij.1;
        assert(combo.len() == 2);
        assert(combo[0] == parsed[i0] && combo[1] == parsed[i1]);
        assert(rules.len() >= 2);
        assert(forall|x: int, p: int| 0 <= x < 2 && 0 <= p < rule[x].len() ==> (#[trigger] rule[x][p]).len() >= 2) by {
            assert forall|x: int, p: int| 0 <= x < 2 && 0 <= p < rule[x].len() implies (#[trigger] rule[x][p]).len() >= 2 by {
                if x == 0 {
                    assert(rule[x].deep_view() == parsed[i0]);
                    assert(rule[x][p].deep_view() == parsed[i0][p]);
                } else {
                    assert(rule[x].deep_view() == parsed[i1]);
                    assert(rule[x][p].deep_view() == parsed[i1][p]);
                }
            }
        }
        let rule_string = superior_text_of(rule);
        let left = part_conditions_of(&rule[0]);
        let right = part_conditions_of(&rule[1]);
        assert(rule[0].len() >= 1) by {
            assert(rule[0].deep_view() == parsed[i0]);
        }
        assert(rule[1].len() >= 1) by {
            assert(rule[1].deep_view() == parsed[i1]);
        }
        let mut all_conditions = part_conditions_of(&rule[0]);
        let mut right_copy = part_conditions_of(&rule[1]);
        all_conditions.append(&mut right_copy);
        assert(all_conditions.deep_view() =~~= combo_conditions(combo));
        assert(all_conditions.len() >= 2);
        let first_header = all_conditions[0].0.clone();
        let first_value = all_conditions[0].1.clone();
        let second_header = all_conditions[1].0.clone();
        let second_value = all_conditions[1].1.clone();
        assert(combo[0].len() >= 1);
        assert(all_conditions.deep_view()[0] == combo_conditions(combo)[0]);
        assert(combo_conditions(combo)[0] == part_conditions(combo[0])[0]);
        assert(first_header@ == combo[0][0][0]);
        assert(df@.contains_key(parsed[i0][0][0]));
        let total = df.get(&first_header).unwrap().len();
        let count_x = find_matching_rows(df, left).len();
        let count_y = find_matching_rows(df, right).len();
        let count_xy = find_matching_rows(df, all_conditions).len();
        let stat = SuperiorStats { text: rule_string, counts: RuleCounts { count_x, count_y, count_xy, total } };
        assert(stat.deep_view() == combo_stats(df@, combo));
        let ghost before = stats.deep_view();
        stats.push(stat);
        assert(stats.deep_view() == before.push(stat.deep_view()));
        assert(stats.deep_view() =~~= combos.take(c + 1).map_values(
            |x: Seq<Seq<Seq<Seq<char>>>>| combo_stats(df@, x),
        ));
        assert(combos.take(c + 1).drop_last() =~= combos.take(c as int));
        if meets_min_support(count_xy, total) {
            let regla = pair_rule(&first_header, &first_value, &second_header, &second_value);
            let ghost before_kept = kept.deep_view();
            kept.push(regla);
            assert(kept.deep_view() == before_kept.push(regla@));
        }
        assert(kept.deep_view() =~= round_kept(df@, combos.take(c + 1)));
        c = c + 1;
    }
    assert(combos.take(combos.len() as int) =~= combos);
    let mut set_of_headers: Vec<String> = Vec::new();
    let mut i: usize = 0;
    assert(parsed.take(0) =~= Seq::<Seq<Seq<Seq<char>>>>::empty());
    while i < unbundled_rules.len()
        invariant
            i <= unbundled_rules.len(),
            unbundled_rules.deep_view() == parsed,
            forall|x: int, p: int|
                0 <= x < rules.len() && 0 <= p < parsed[x].len() ==> (#[trigger] parsed[x][p]).len() >= 1,
            parsed.len() == rules.len(),
            set_of_headers.len() == piece_total(parsed.take(i as int)),
        decreases unbundled_rules.len() - i,
    {
        let rule = &unbundled_rules[i];
        assert(rule.deep_view() == parsed[i as int]);
        let mut p: usize = 0;
        let ghost start = set_of_headers.len();
        while p < rule.len()
            invariant
                p <= rule.len(),
                rule.deep_view() == parsed[i as int],
                forall|q: int| 0 <= q < rule.len() ==> (#[trigger] parsed[i as int][q]).len() >= 1,
                set_of_headers.len() == start + p,
            decreases rule.len() - p,
        {
            assert(rule[p as int].deep_view() == parsed[i as int][p as int]);
            set_of_headers.push(rule[p][0].clone());
            p = p + 1;
        }
        proof { lemma_piece_total_step(parsed, i as int); }
        i = i + 1;
    }
    assert(parsed.take(parsed.len() as int) =~= parsed);
    SuperiorRound { stats, kept, piece_count: set_of_headers.len() }
}

/// Whether a round over `rules` runs to its end.
pub fn round_is_defined(df: &DataFrame, rules: &Vec<String>) -> (b: bool)
    ensures
        b == round_defined(df@, rules.deep_view()),
{
    if rules.len() < 2 {
        return true;
    }
    let ghost parsed = parsed_rules(rules.deep_view());
    let unbundled_rules = get_rules_info(rules);
    assert(unbundled_rules.deep_view() == parsed);
    proof { lemma_parsed_nonempty(rules.deep_view()); }
    let mut i: usize = 0;
    while i < unbundled_rules.len()
        invariant
            i <= unbundled_rules.len(),
            unbundled_rules.deep_view() == parsed,
            parsed == parsed_rules(rules.deep_view()),
            rules.len() >= 2,
            parsed.len() >= 2,
            forall|x: int| 0 <= x < parsed.len() ==> (#[trigger] parsed[x]).len() >= 1,
            forall|x: int, p: int| 0 <= x < i && 0 <= p < parsed[x].len() ==> (#[trigger] parsed[x][p]).len() >= 2,
            forall|x: int| 0 <= x < i && x < parsed.len() - 1 ==> df@.contains_key(#[trigger] parsed[x][0][0]),
        decreases unbundled_rules.len() - i,
    {
        let rule = &unbundled_rules[i];
        assert(rule.deep_view() == parsed[i as int]);
        let mut p: usize = 0;
        while p < rule.len()
            invariant
                p <= rule.len(),
                rule.deep_view() == parsed[i as int],
                parsed == parsed_rules(rules.deep_view()),
                rules.len() >= 2,
                i < parsed.len(),
                forall|q: int| 0 <= q < p ==> (#[trigger] parsed[i as int][q]).len() >= 2,
            decreases rule.len() - p,
        {
            assert(rule[p as int].deep_view() == parsed[i as int][p as int]);
            if rule[p].len() < 2 {
                assert(parsed[i as int][p as int].len() < 2);
                assert(rules.deep_view().len() >= 2);
                assert(!round_defined(df@, rules.deep_view()));
                return false;
            }
            p = p + 1;
        }
        if i + 1 < unbundled_rules.len() {
            assert(rule.len() >= 1);
            assert(rule[0].deep_view() == parsed[i as int][0]);
            assert(rule[0].len() >= 1);
            assert(rule[0][0]@ == parsed[i as int][0][0]);
            if !df.contains_key(&rule[0][0]) {
                assert(!df@.contains_key(parsed[i as int][0][0]));
                assert(i < parsed.len() - 1);
                assert(rules.deep_view().len() >= 2);
                assert(!round_defined(df@, rules.deep_view()));
                return false;
            }
        }
        i = i + 1;
    }
    true
}

/// How a run of rounds ended.
#[derive(Clone, Copy, Debug, PartialEq, Eq, Structural)]
pub enum RoundsEnd {
    /// Every degree below the number of headers was run.
    Exhausted,
    /// A round started from at least as many header-value pieces as there are
    /// headers, so no further round was run.
    AllRulesFound,
    /// The next round would not run to its end.
    Undefined,
}

/// A round as plain values: its combined rules, the rules it keeps, and the
/// number of pieces it started from.
pub type RoundView = (Seq<SuperiorStatsView>, Seq<Seq<char>>, int);

impl DeepView for SuperiorRound {
    type V = RoundView;

    open spec fn deep_view(&self) -> RoundView {
        (self.stats.deep_view(), self.kept.deep_view(), self.piece_count as int)
    }
}

/// The round over `rules` as plain values.
pub open spec fn round_view(df: Map<Seq<char>, Seq<Seq<char>>>, rules: Seq<Seq<char>>) -> RoundView {
    (
        round_stats(df, rules),
        round_kept(df, round_combos(rules)),
        piece_total(parsed_rules(rules)),
    )
}

/// The rounds of degrees `degree` up to `num_headers - 1`, each started from
/// the rules kept by the one before, stopping after a round that started from
/// at least `num_headers` pieces, or before a round that would not run to
/// its end; and how the run ended.
pub open spec fn rounds_from(
    df: Map<Seq<char>, Seq<Seq<char>>>,
    rules: Seq<Seq<char>>,
    degree: int,
    num_headers: int,
) -> (Seq<RoundView>, RoundsEnd)
    decreases num_headers - degree,
{
    if degree >= num_headers {
        (Seq::empty(), RoundsEnd::Exhausted)
    } else if !round_defined(df, rules) {
        (Seq::empty(), RoundsEnd::Undefined)
    } else {
        let rv = round_view(df, rules);
        if rv.2 >= num_headers {
            (seq![rv], RoundsEnd::AllRulesFound)
        } else {
            let rest = rounds_from(df, rv.1, degree + 1, num_headers);
            (seq![rv] + rest.0, rest.1)
        }
    }
}

/// The rules a run of rounds would start its next round from: the rules the
/// last round kept, or the first rules when no round ran.
pub open spec fn next_round_rules(rounds: Seq<RoundView>, first_rules: Seq<Seq<char>>) -> Seq<Seq<char>> {
    if rounds.len() == 0 {
        first_rules
    } else {
        rounds.last().1
    }
}

/// Rules of higher degree: runs the rounds of degrees 2 up to
/// `num_headers - 1`, starting from the rules of the first degree. The first
/// round starts from `first_rules`, and each later round starts from exactly
/// the rules the round before it kept.
pub fn mine_rounds(df: &DataFrame, first_rules: &Vec<String>, num_headers: usize) -> (r: (
    Vec<SuperiorRound>,
    RoundsEnd,
))
    ensures
        (r.0.deep_view(), r.1) == rounds_from(df@, first_rules.deep_view(), 2, num_headers as int),
        r.0.len() > 0 ==> r.0[0].deep_view() == round_view(df@, first_rules.deep_view()),
        forall|k: int|
            0 < k < r.0.len() ==> #[trigger] r.0[k].deep_view() == round_view(df@, r.0[k - 1].kept.deep_view()),
        forall|k: int| 0 <= k < r.0.len() - 1 ==> (#[trigger] r.0[k]).piece_count < num_headers,
        r.0.len() + 2 <= num_headers || r.0.len() == 0,
        r.1 == RoundsEnd::Exhausted ==> r.0.len() + 2 == num_headers || (num_headers <= 2 && r.0.len() == 0),
        r.1 == RoundsEnd::Exhausted ==> r.0.len() == 0 || r.0[r.0.len() - 1].piece_count < num_headers,
        r.1 == RoundsEnd::AllRulesFound ==> r.0.len() > 0 && r.0[r.0.len() - 1].piece_count >= num_headers,
        r.1 == RoundsEnd::Undefined ==> !round_defined(df@, next_round_rules(r.0.deep_view(), first_rules.deep_view())),
{
    let mut rounds: Vec<SuperiorRound> = Vec::new();
    let mut rules = crate::combinatorics::clone_strings(first_rules);
    let mut degree: usize = 2;
    while degree < num_headers
        invariant
            2 <= degree,
            degree <= num_headers || rounds.len() == 0,
            rounds.len() + 2 == degree,
            rules.deep_view() == next_round_rules(rounds.deep_view(), first_rules.deep_view()),
            rounds.len() > 0 ==> rounds[0].deep_view() == round_view(df@, first_rules.deep_view()),
            forall|k: int|
                0 < k < rounds.len() ==> #[trigger] rounds[k].deep_view() == round_view(
                    df@,
                    rounds[k - 1].kept.deep_view(),
                ),
            forall|k: int| 0 <= k < rounds.len() ==> (#[trigger] rounds[k]).piece_count < num_headers,
            rounds_from(df@, first_rules.deep_view(), 2, num_headers as int) == (
                rounds.deep_view() + rounds_from(df@, rules.deep_view(), degree as int, num_headers as int).0,
                rounds_from(df@, rules.deep_view(), degree as int, num_headers as int).1,
            ),
        decreases num_headers - degree,
    {
        if !round_is_defined(df, &rules) {
            assert(rounds.deep_view() + Seq::<RoundView>::empty() =~= rounds.deep_view());
            return (rounds, RoundsEnd::Undefined);
        }
        let round = superior_round(df, &rules);
        let stop = round.piece_count >= num_headers;
        let next = crate::combinatorics::clone_strings(&round.kept);
        let ghost before = rounds.deep_view();
        let ghost old_rounds = rounds@;
        let ghost rv = round.deep_view();
        assert(rv == round_view(df@, rules.deep_view()));
        rounds.push(round);
        assert(rounds.deep_view() == before.push(rv));
        assert(rounds@ == old_rounds.push(round));
        assert(rounds[rounds.len() - 1].deep_view() == rv);
        assert forall|k: int| 0 < k < rounds.len() implies #[trigger] rounds[k].deep_view() == round_view(
            df@,
            rounds[k - 1].kept.deep_view(),
        ) by {
            if k < rounds.len() - 1 {
                assert(rounds[k] == old_rounds[k]);
                assert(rounds[k - 1] == old_rounds[k - 1]);
            } else {
                assert(rounds[k - 1] == old_rounds[k - 1]);
                assert(old_rounds[k - 1].deep_view() == before[k - 1]);
                assert(before.last() == before[k - 1]);
            }
        }
        if stop {
            assert(rounds.deep_view() + Seq::<RoundView>::empty() =~= before + seq![rv]);
            return (rounds, RoundsEnd::AllRulesFound);
        }
        assert(before + (seq![rv] + rounds_from(df@, next.deep_view(), degree + 1, num_headers as int).0)
            =~= rounds.deep_view() + rounds_from(df@, next.deep_view(), degree + 1, num_headers as int).0);
        assert(rounds.deep_view().last() == rv);
        rules = next;
        degree = degree + 1;
    }
    assert(rounds.deep_view() + Seq::<RoundView>::empty() =~= rounds.deep_view());
    (rounds, RoundsEnd::Exhausted)
}

} // verus!
