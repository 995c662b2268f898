//! A table from names to values: what a cache or a collection holds in
//! memory, and what its file holds as one object.

use crate::text::same_text;
use vstd::prelude::*;

verus! {

/// A table from names to values. No name stands in it twice.
pub struct Table<V> {
    rows: Vec<(String, V)>,
}

/// Where `key` stands among `rows`, if it stands there.
pub open spec fn row_of<V>(rows: Seq<(Seq<char>, V)>, key: Seq<char>) -> int {
    choose|i: int| 0 <= i < rows.len() && rows[i].0 == key
}

/// Whether `key` stands among `rows`.
pub open spec fn has_row<V>(rows: Seq<(Seq<char>, V)>, key: Seq<char>) -> bool {
    exists|i: int| 0 <= i < rows.len() && rows[i].0 == key
}

/// Whether no name stands twice among `rows`.
pub open spec fn distinct_names<V>(rows: Seq<(Seq<char>, V)>) -> bool {
    forall|i: int, j: int| 0 <= i < j < rows.len() ==> rows[i].0 != rows[j].0
}

/// The rows with each name as the text that it is.
pub open spec fn named<V>(rows: Seq<(String, V)>) -> Seq<(Seq<char>, V)> {
    Seq::new(rows.len(), |i: int| (rows[i].0@, rows[i].1))
}

/// The map that a file with these rows holds: each name with its value, and
/// for a name that stands twice the value that stands last.
pub open spec fn loaded<V>(rows: Seq<(Seq<char>, V)>) -> Map<Seq<char>, V>
    decreases rows.len(),
{
    if rows.len() == 0 {
        Map::empty()
    } else {
        loaded(rows.drop_last()).insert(rows.last().0, rows.last().1)
    }
}

/// What is loaded holds the names of the rows and no others.
pub proof fn lemma_loaded_names<V>(rows: Seq<(Seq<char>, V)>)
    ensures
        forall|key: Seq<char>| loaded(rows).contains_key(key) <==> has_row(rows, key),
    decreases rows.len(),
{
    if rows.len() > 0 {
        let front = rows.drop_last();
        lemma_loaded_names(front);
        assert forall|key: Seq<char>| loaded(rows).contains_key(key) <==> has_row(rows, key) by {
            if has_row(rows, key) {
                let i = row_of(rows, key);
                if i < front.len() {
                    assert(front[i].0 == key);
                }
            }
            if has_row(front, key) {
                let i = row_of(front, key);
                assert(rows[i].0 == key);
            }
            if key == rows.last().0 {
                assert(rows[rows.len() - 1].0 == key);
            }
        }
    }
}

/// Where no name stands twice, what is loaded holds each row's value under
/// its name: what was written is what is read.
pub proof fn lemma_loaded_rows<V>(rows: Seq<(Seq<char>, V)>)
    requires
        distinct_names(rows),
    ensures
        forall|i: int|
            0 <= i < rows.len() ==> loaded(rows).contains_key(#[trigger] rows[i].0) && loaded(
                rows,
            )[rows[i].0] == rows[i].1,
    decreases rows.len(),
{
    if rows.len() > 0 {
        let front = rows.drop_last();
        assert(distinct_names(front)) by {
            assert forall|i: int, j: int| 0 <= i < j < front.len() implies front[i].0
                != front[j].0 by {
                assert(rows[i].0 != rows[j].0);
            }
        }
        lemma_loaded_rows(front);
        assert forall|i: int| 0 <= i < rows.len() implies loaded(rows).contains_key(
            #[trigger] rows[i].0,
        ) && loaded(rows)[rows[i].0] == rows[i].1 by {
            if i < front.len() {
                assert(front[i] == rows[i]);
                assert(rows[i].0 != rows[rows.len() - 1].0);
            }
        }
    }
}

impl<V> Table<V> {
    #[verifier::type_invariant]
    spec fn well_formed(self) -> bool {
        distinct_names(self.rows())
    }

    /// The names and values in the order in which the table keeps them.
    pub closed spec fn rows(self) -> Seq<(Seq<char>, V)> {
        named(self.rows@)
    }

    /// The table as a map.
    pub open spec fn view(self) -> Map<Seq<char>, V> {
        Map::new(
            |key: Seq<char>| has_row(self.rows(), key),
            |key: Seq<char>| self.rows()[row_of(self.rows(), key)].1,
        )
    }

    /// The empty table.
    pub fn new() -> (out: Self)
        ensures
            out@ == Map::<Seq<char>, V>::empty(),
            out.rows().len() == 0,
    {
        let out = Table { rows: Vec::new() };
        assert(out@ =~= Map::<Seq<char>, V>::empty());
        out
    }

    /// The table that a file with these rows holds.
    pub fn from_rows(rows: Vec<(String, V)>) -> (out: Self)
        ensures
            out@ == loaded(named(rows@)),
    {
        let ghost all = named(rows@);
        let mut out: Table<V> = Table::new();
        proof {
            assert(all.take(0) =~= Seq::empty());
        }
        for row in it: rows
            invariant
                it.seq() == rows@,
                all == named(rows@),
                out@ == loaded(all.take(it.index())),
        {
            proof {
                assert(all.take(it.index() + 1).drop_last() =~= all.take(it.index()));
            }
            out.insert(row.0, row.1);
        }
        proof {
            assert(all.take(all.len() as int) =~= all);
        }
        out
    }

    /// The rows of the table, to be written to its file.
    pub fn into_rows(self) -> (out: Vec<(String, V)>)
        ensures
            named(out@) == self.rows(),
            loaded(named(out@)) == self@,
    {
        proof {
            use_type_invariant(&self);
            let rows = self.rows();
            lemma_loaded_names(rows);
            lemma_loaded_rows(rows);
            assert forall|key: Seq<char>| has_row(rows, key) implies loaded(rows)[key]
                == self@[key] by {
                let i = row_of(rows, key);
                assert(loaded(rows)[rows[i].0] == rows[i].1);
            }
            assert(loaded(rows) =~= self@);
        }
        self.rows
    }

    /// How many names the table holds. Each has one row, and each row is an
    /// entry of the map.
    pub fn len(&self) -> (out: usize)
        ensures
            out == self.rows().len(),
            distinct_names(self.rows()),
            forall|i: int|
                0 <= i < self.rows().len() ==> self@.contains_key(#[trigger] self.rows()[i].0)
                    && self@[self.rows()[i].0] == self.rows()[i].1,
    {
        proof {
            use_type_invariant(self);
            let rows = self.rows();
            assert forall|i: int| 0 <= i < rows.len() implies self@.contains_key(
                #[trigger] rows[i].0,
            ) && self@[rows[i].0] == rows[i].1 by {
                assert(has_row(rows, rows[i].0));
            }
        }
        self.rows.len()
    }

    /// The name of row `i`.
    pub fn name_at(&self, i: usize) -> (out: &str)
        requires
            i < self.rows().len(),
        ensures
            out@ == self.rows()[i as int].0,
    {
        self.rows[i].0.as_str()
    }

    /// The value of row `i`.
    pub fn value_at(&self, i: usize) -> (out: &V)
        requires
            i < self.rows().len(),
        ensures
            *out == self.rows()[i as int].1,
    {
        &self.rows[i].1
    }

    /// The row in which `key` stands.
    fn find(&self, key: &str) -> (out: Option<usize>)
        ensures
            match out {
                Some(i) => i < self.rows().len() && self.rows()[i as int].0 == key@,
                None => !has_row(self.rows(), key@),
            },
    {
        let mut i: usize = 0;
        while i < self.rows.len()
            invariant
                i <= self.rows@.len(),
                forall|j: int| 0 <= j < i ==> self.rows()[j].0 != key@,
            decreases self.rows.len() - i,
        {
            if same_text(self.rows[i].0.as_str(), key) {
                return Some(i);
            }
            i += 1;
        }
        None
    }

    /// The value under `key`.
    pub fn get(&self, key: &str) -> (out: Option<&V>)
        ensures
            match out {
                Some(v) => self@.contains_key(key@) && self@[key@] == *v,
                None => !self@.contains_key(key@),
            },
    {
        proof {
            use_type_invariant(self);
        }
        match self.find(key) {
            Some(i) => {
                assert(has_row(self.rows(), key@));
                Some(&self.rows[i].1)
            },
            None => None,
        }
    }

    /// Puts `value` under `key`, in place of what stood there.
    pub fn insert(&mut self, key: String, value: V)
        ensures
            final(self)@ == old(self)@.insert(key@, value),
            match old(self)@.contains_key(key@) {
                true => final(self).rows() == old(self).rows().update(
                    row_of(old(self).rows(), key@),
                    (key@, value),
                ),
                false => final(self).rows() == old(self).rows().push((key@, value)),
            },
    {
        proof {
            use_type_invariant(&*self);
        }
        let ghost before = self.rows();
        match self.find(key.as_str()) {
            Some(i) => {
                assert(has_row(before, key@));
                let mut taken = Table { rows: Vec::new() };
                core::mem::swap(self, &mut taken);
                let mut rows = taken.rows;
                rows.set(i, (key, value));
                proof {
                    assert(named(rows@) =~= before.update(i as int, (key@, value)));
                    assert forall|a: int, b: int| 0 <= a < b < rows.len() implies named(rows@)[a].0
                        != named(rows@)[b].0 by {
                        assert(before[a].0 != before[b].0);
                    }
                }
                *self = Table { rows };
            },
            None => {
                let mut taken = Table { rows: Vec::new() };
                core::mem::swap(self, &mut taken);
                let mut rows = taken.rows;
                rows.push((key, value));
                proof {
                    assert(named(rows@) =~= before.push((key@, value)));
                    assert forall|a: int, b: int| 0 <= a < b < rows.len() implies named(rows@)[a].0
                        != named(rows@)[b].0 by {
                        if b < before.len() {
                            assert(before[a].0 != before[b].0);
                        }
                    }
                }
                *self = Table { rows };
            },
        }
        proof {
            let after = self.rows();
            assert forall|k: Seq<char>| has_row(after, k) <==> (k == key@ || has_row(before, k)) by {
                if has_row(after, k) {
                    let j = row_of(after, k);
                    if k != key@ {
                        assert(before[j].0 == k);
                    }
                }
                if has_row(before, k) {
                    let j = row_of(before, k);
                    assert(after[j].0 == k || k == key@);
                }
                if k == key@ {
                    let j = if has_row(before, key@) {
                        row_of(before, key@)
                    } else {
                        before.len() as int
                    };
                    assert(after[j].0 == k);
                }
            }
            assert forall|k: Seq<char>| has_row(after, k) implies after[row_of(after, k)].1
                == old(self)@.insert(key@, value)[k] by {
                let j = row_of(after, k);
                if k != key@ {
                    assert(before[j].0 == k);
                    assert(has_row(before, k));
                }
            }
            assert(self@ =~= old(self)@.insert(key@, value));
        }
    }

    /// Takes out what stands under `key`.
    pub fn remove(&mut self, key: &str) -> (out: Option<V>)
        ensures
            final(self)@ == old(self)@.remove(key@),
            match out {
                Some(v) => old(self)@.contains_key(key@) && old(self)@[key@] == v,
                None => !old(self)@.contains_key(key@),
            },
    {
        proof {
            use_type_invariant(&*self);
        }
        let ghost before = self.rows();
        match self.find(key) {
            Some(i) => {
                assert(has_row(before, key@));
                let mut taken = Table { rows: Vec::new() };
                core::mem::swap(self, &mut taken);
                let mut rows = taken.rows;
                let row = rows.remove(i);
                proof {
                    assert(named(rows@) =~= before.remove(i as int));
                    assert forall|a: int, b: int| 0 <= a < b < rows.len() implies named(rows@)[a].0
                        != named(rows@)[b].0 by {
                        let aa = if a < i { a } else { a + 1 };
                        let bb = if b < i { b } else { b + 1 };
                        assert(before[aa].0 != before[bb].0);
                    }
                }
                *self = Table { rows };
                proof {
                    let after = self.rows();
                    assert forall|k: Seq<char>| has_row(after, k) <==> (k != key@ && has_row(
                        before,
                        k,
                    )) by {
                        if has_row(after, k) {
                            let j = row_of(after, k);
                            let jj = if j < i { j } else { j + 1 };
                            assert(before[jj].0 == k);
                        }
                        if k != key@ && has_row(before, k) {
                            let j = row_of(before, k);
                            let jj = if j < i { j } else { j - 1 };
                            assert(after[jj].0 == k);
                        }
                    }
                    assert forall|k: Seq<char>| has_row(after, k) implies after[row_of(after, k)].1
                        == old(self)@[k] by {
                        let j = row_of(after, k);
                        let jj = if j < i { j } else { j + 1 };
                        assert(before[jj].0 == k);
                    }
                    assert(self@ =~= old(self)@.remove(key@));
                }
                Some(row.1)
            },
            None => {
                assert(self@ =~= old(self)@.remove(key@));
                None
            },
        }
    }
}

} // verus!
