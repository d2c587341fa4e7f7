use vstd::prelude::*;

verus! {

/// A table of string columns keyed by header.
///
/// Headers are kept in insertion order and never repeat; `columns[i]` is the
/// column stored under `headers[i]`.
#[derive(Debug)]
pub struct DataFrame {
    headers: Vec<String>,
    columns: Vec<Vec<String>>,
}

impl DataFrame {
    /// The headers of the table, in the order they were added.
    pub closed spec fn keys(&self) -> Seq<Seq<char>> {
        self.headers.deep_view()
    }

    /// The columns of the table, aligned with `keys`.
    pub closed spec fn cols(&self) -> Seq<Seq<Seq<char>>> {
        self.columns.deep_view()
    }

    #[verifier::type_invariant]
    closed spec fn well_formed(&self) -> bool {
        &&& self.headers.len() == self.columns.len()
        &&& self.keys().no_duplicates()
    }
}

impl View for DataFrame {
    type V = Map<Seq<char>, Seq<Seq<char>>>;

    /// The table as a map from header to column.
    closed spec fn view(&self) -> Map<Seq<char>, Seq<Seq<char>>> {
        Map::new(
            |h: Seq<char>| self.keys().contains(h),
            |h: Seq<char>| self.cols()[self.keys().index_of(h)],
        )
    }
}

impl DataFrame {
    proof fn lemma_view_at(&self, i: int)
        requires
            self.well_formed(),
            0 <= i < self.keys().len(),
        ensures
            self@.contains_key(self.keys()[i]),
            self@[self.keys()[i]] == self.cols()[i],
    {
        let h = self.keys()[i];
        assert(self.keys().contains(h));
        let j = self.keys().index_of(h);
        assert(0 <= j < self.keys().len() && self.keys()[j] == h);
        assert(j == i);
    }

    proof fn lemma_view_update(old_df: &Self, new_df: &Self, i: int)
        requires
            old_df.well_formed(),
            new_df.well_formed(),
            0 <= i < old_df.keys().len(),
            new_df.keys() == old_df.keys(),
            new_df.cols().len() == old_df.cols().len(),
            forall|k: int| 0 <= k < old_df.cols().len() && k != i ==> new_df.cols()[k] == old_df.cols()[k],
        ensures
            new_df@ == old_df@.insert(old_df.keys()[i], new_df.cols()[i]),
    {
        let m = old_df@.insert(old_df.keys()[i], new_df.cols()[i]);
        assert forall|h: Seq<char>| #[trigger] new_df@.contains_key(h) <==> m.contains_key(h) by {
            if old_df.keys().contains(h) {
                let j = old_df.keys().index_of(h);
                Self::lemma_view_at(old_df, j);
            }
        }
        assert forall|h: Seq<char>| new_df@.contains_key(h) implies #[trigger] new_df@[h] == m[h] by {
            let j = new_df.keys().index_of(h);
            Self::lemma_view_at(new_df, j);
            Self::lemma_view_at(old_df, j);
        }
        assert(new_df@ =~= m);
    }

    proof fn lemma_view_push(old_df: &Self, new_df: &Self)
        requires
            old_df.well_formed(),
            new_df.well_formed(),
            new_df.keys().len() == old_df.keys().len() + 1,
            new_df.keys().drop_last() == old_df.keys(),
            new_df.cols().drop_last() == old_df.cols(),
        ensures
            new_df@ == old_df@.insert(new_df.keys().last(), new_df.cols().last()),
    {
        let n = old_df.keys().len() as int;
        let m = old_df@.insert(new_df.keys().last(), new_df.cols().last());
        assert forall|h: Seq<char>| #[trigger] new_df@.contains_key(h) <==> m.contains_key(h) by {
            if new_df.keys().contains(h) {
                let j = new_df.keys().index_of(h);
                if j < n {
                    assert(old_df.keys()[j] == h);
                }
            }
            if old_df.keys().contains(h) {
                let j = old_df.keys().index_of(h);
                assert(new_df.keys()[j] == h);
            }
        }
        assert forall|h: Seq<char>| new_df@.contains_key(h) implies #[trigger] new_df@[h] == m[h] by {
            let j = new_df.keys().index_of(h);
            Self::lemma_view_at(new_df, j);
            if j < n {
                assert(old_df.keys()[j] == h);
                Self::lemma_view_at(old_df, j);
            }
        }
        assert(new_df@ =~= m);
    }

    /// An empty table.
    pub fn new() -> (df: Self)
        ensures
            df@ == Map::<Seq<char>, Seq<Seq<char>>>::empty(),
    {
        let df = DataFrame { headers: Vec::new(), columns: Vec::new() };
        assert(df@ =~= Map::<Seq<char>, Seq<Seq<char>>>::empty());
        df
    }

    fn position(&self, header: &String) -> (r: Option<usize>)
        ensures
            match r {
                Some(i) => i < self.keys().len() && self.keys()[i as int] == header@,
                None => !self.keys().contains(header@),
            },
    {
        proof { use_type_invariant(self); }
        let mut i: usize = 0;
        while i < self.headers.len()
            invariant
                i <= self.headers.len(),
                forall|k: int| 0 <= k < i ==> self.keys()[k] != header@,
            decreases self.headers.len() - i,
        {
            if self.headers[i] == *header {
                return Some(i);
            }
            i = i + 1;
        }
        None
    }

    /// The headers of the table, each once, in the order they were added.
    pub fn header_list(&self) -> (r: &Vec<String>)
        ensures
            r.deep_view().no_duplicates(),
            forall|h: Seq<char>| #[trigger] self@.contains_key(h) <==> r.deep_view().contains(h),
    {
        proof { use_type_invariant(self); }
        &self.headers
    }

    /// Whether the table has a column under `header`.
    pub fn contains_key(&self, header: &String) -> (b: bool)
        ensures
            b == self@.contains_key(header@),
    {
        self.position(header).is_some()
    }

    /// The column stored under `header`, if there is one.
    pub fn get(&self, header: &String) -> (r: Option<&Vec<String>>)
        ensures
            match r {
                Some(col) => self@.contains_key(header@) && col.deep_view() == self@[header@],
                None => !self@.contains_key(header@),
            },
    {
        proof { use_type_invariant(self); }
        match self.position(header) {
            Some(i) => {
                proof { self.lemma_view_at(i as int); }
                Some(&self.columns[i])
            },
            None => None,
        }
    }
}

impl DataFrame {
    /// Stores `column` under `header`, replacing any column already there.
    pub fn insert(&mut self, header: String, column: Vec<String>)
        ensures
            final(self)@ == old(self)@.insert(header@, column.deep_view()),
    {
        proof { use_type_invariant(&*self); }
        let ghost old_df = *self;
        match self.position(&header) {
            Some(i) => {
                self.columns[i] = column;
                proof {
                    use_type_invariant(&*self);
                    Self::lemma_view_update(&old_df, &*self, i as int);
                }
            },
            None => {
                let mut taken = DataFrame { headers: Vec::new(), columns: Vec::new() };
                std::mem::swap(&mut taken, self);
                proof { use_type_invariant(&taken); }
                let DataFrame { mut headers, mut columns } = taken;
                let ghost hv = header@;
                headers.push(header);
                columns.push(column);
                assert(headers.deep_view() =~= old_df.keys().push(hv));
                assert(headers.deep_view().no_duplicates()) by {
                    assert forall|a: int, b: int|
                        0 <= a < headers.deep_view().len() && 0 <= b < headers.deep_view().len() && a != b
                        implies headers.deep_view()[a] != headers.deep_view()[b] by {
                        if b == old_df.keys().len() {
                            assert(old_df.keys()[a] == headers.deep_view()[a]);
                        } else if a == old_df.keys().len() {
                            assert(old_df.keys()[b] == headers.deep_view()[b]);
                        }
                    }
                }
                assert(headers.deep_view().drop_last() =~= old_df.keys());
                assert(columns.deep_view().drop_last() =~= old_df.cols());
                *self = DataFrame { headers, columns };
                proof {
                    Self::lemma_view_push(&old_df, &*self);
                }
            },
        }
    }

    /// Appends `value` to the column stored under `header`.
    pub fn push_value(&mut self, header: &String, value: String)
        requires
            old(self)@.contains_key(header@),
        ensures
            final(self)@ == old(self)@.insert(header@, old(self)@[header@].push(value@)),
    {
        proof { use_type_invariant(&*self); }
        let ghost old_df = *self;
        let i = self.position(header).unwrap();
        proof { Self::lemma_view_at(&old_df, i as int); }
        self.columns[i].push(value);
        proof {
            use_type_invariant(&*self);
            assert(self.cols()[i as int] =~= old_df.cols()[i as int].push(value@));
            Self::lemma_view_update(&old_df, &*self, i as int);
        }
    }
}

/// `m` with `value` appended to the column under `header`, or with a new
/// column holding just `value` when there is none.
pub open spec fn push_entry(
    m: Map<Seq<char>, Seq<Seq<char>>>,
    header: Seq<char>,
    value: Seq<char>,
) -> Map<Seq<char>, Seq<Seq<char>>> {
    if m.contains_key(header) {
        m.insert(header, m[header].push(value))
    } else {
        m.insert(header, seq![value])
    }
}

impl DataFrame {
    /// Appends `value` to the column under `header`, creating the column when
    /// there is none.
    pub fn push_entry(&mut self, header: &String, value: String)
        ensures
            final(self)@ == push_entry(old(self)@, header@, value@),
    {
        if self.contains_key(header) {
            self.push_value(header, value);
        } else {
            let mut column: Vec<String> = Vec::new();
            column.push(value);
            assert(column.deep_view() =~= seq![value@]);
            self.insert(header.clone(), column);
        }
    }
}

} // verus!
