use vstd::prelude::*;

verus! {

/// The pieces of `s` between occurrences of `sep`, in order: one more piece
/// than there are occurrences, empty pieces included.
pub open spec fn split_on(s: Seq<char>, sep: char) -> Seq<Seq<char>>
    decreases s.len(),
{
    if s.len() == 0 {
        seq![Seq::<char>::empty()]
    } else {
        let init = split_on(s.drop_last(), sep);
        if s.last() == sep {
            init.push(Seq::empty())
        } else {
            init.update(init.len() - 1, init.last().push(s.last()))
        }
    }
}

/// Splitting always gives at least one piece.
pub proof fn lemma_split_nonempty(s: Seq<char>, sep: char)
    ensures
        split_on(s, sep).len() >= 1,
    decreases s.len(),
{
    if s.len() > 0 {
        lemma_split_nonempty(s.drop_last(), sep);
    }
}

/// Splitting `a`, a separator, and `b` gives the pieces of `a` followed by
/// the pieces of `b`.
pub proof fn lemma_split_concat(a: Seq<char>, b: Seq<char>, sep: char)
    ensures
        split_on(a + seq![sep] + b, sep) == split_on(a, sep) + split_on(b, sep),
    decreases b.len(),
{
    if b.len() == 0 {
        assert(a + seq![sep] + b =~= a + seq![sep]);
        assert((a + seq![sep]).drop_last() =~= a);
        assert(split_on(a, sep) + split_on(b, sep) =~= split_on(a, sep).push(Seq::empty()));
    } else {
        let b0 = b.drop_last();
        lemma_split_concat(a, b0, sep);
        lemma_split_nonempty(b0, sep);
        lemma_split_nonempty(a, sep);
        assert((a + seq![sep] + b).drop_last() =~= a + seq![sep] + b0);
        assert((a + seq![sep] + b).last() == b.last());
        if b.last() == sep {
            assert(split_on(a, sep) + split_on(b, sep) =~= (split_on(a, sep) + split_on(b0, sep)).push(Seq::empty()));
        } else {
            let sa = split_on(a, sep);
            let sb0 = split_on(b0, sep);
            assert(split_on(a, sep) + split_on(b, sep) =~= (sa + sb0).update(
                (sa + sb0).len() - 1,
                (sa + sb0).last().push(b.last()),
            ));
        }
    }
}

/// A string without the separator splits into itself alone.
pub proof fn lemma_split_without_sep(s: Seq<char>, sep: char)
    requires
        !s.contains(sep),
    ensures
        split_on(s, sep) == seq![s],
    decreases s.len(),
{
    if s.len() == 0 {
        assert(s =~= Seq::<char>::empty());
    } else {
        assert(!s.drop_last().contains(sep)) by {
            if s.drop_last().contains(sep) {
                let k = choose|k: int| 0 <= k < s.drop_last().len() && s.drop_last()[k] == sep;
                assert(s[k] == sep);
            }
        }
        lemma_split_without_sep(s.drop_last(), sep);
        assert(s.last() != sep) by {
            assert(s[s.len() - 1] == s.last());
        }
        assert(s.drop_last().push(s.last()) =~= s);
        assert(seq![s.drop_last()].update(0, s.drop_last().push(s.last())) =~~= seq![s]);
    }
}

/// The pieces of `s` split on `sep`.
pub fn split_chars(s: &str, sep: char) -> (r: Vec<String>)
    ensures
        r.deep_view() == split_on(s@, sep),
{
    let n = s.unicode_len();
    let mut pieces: Vec<String> = Vec::new();
    let mut piece_start: usize = 0;
    let mut i: usize = 0;
    assert(s@.take(0) =~= Seq::<char>::empty());
    assert(split_on(s@.take(0), sep) =~= pieces.deep_view().push(s@.subrange(0, 0)));
    while i < n
        invariant
            n == s@.len(),
            piece_start <= i <= n,
            split_on(s@.take(i as int), sep) == pieces.deep_view().push(s@.subrange(piece_start as int, i as int)),
        decreases n - i,
    {
        let c = s.get_char(i);
        assert(s@.take(i + 1).drop_last() =~= s@.take(i as int));
        assert(s@.take(i + 1).last() == c);
        if c == sep {
            let piece = String::from_str(s.substring_char(piece_start, i));
            let ghost old_p = pieces.deep_view();
            pieces.push(piece);
            assert(pieces.deep_view() == old_p.push(s@.subrange(piece_start as int, i as int)));
            piece_start = i + 1;
            assert(s@.subrange(piece_start as int, i + 1) =~= Seq::<char>::empty());
            assert(split_on(s@.take(i + 1), sep) =~~= pieces.deep_view().push(s@.subrange(piece_start as int, i + 1)));
        } else {
            assert(s@.subrange(piece_start as int, i + 1) =~= s@.subrange(piece_start as int, i as int).push(c));
            assert(split_on(s@.take(i + 1), sep) =~= pieces.deep_view().push(s@.subrange(piece_start as int, i + 1)));
        }
        i = i + 1;
    }
    let last = String::from_str(s.substring_char(piece_start, n));
    let ghost old_p = pieces.deep_view();
    pieces.push(last);
    assert(pieces.deep_view() == old_p.push(s@.subrange(piece_start as int, n as int)));
    assert(s@.take(n as int) =~= s@);
    pieces
}

} // verus!
