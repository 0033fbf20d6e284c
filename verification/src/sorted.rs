//! A map from names to values that keeps its rows in the order of the names.

use crate::text::{lemma_precedes_irreflexive, lemma_precedes_transitive, place, precedes, Place};
use vstd::prelude::*;

verus! {

/// Rows in strictly ascending order of their names.
pub open spec fn ascending<V>(rows: Seq<(Seq<char>, V)>) -> bool {
    forall|i: int, j: int|
        0 <= i < j < rows.len() ==> precedes(#[trigger] rows[i].0, #[trigger] rows[j].0)
}

/// The value in the row of a name.
pub open spec fn value_of<V>(rows: Seq<(Seq<char>, V)>, name: Seq<char>) -> Option<V> {
    if exists|i: int| 0 <= i < rows.len() && #[trigger] rows[i].0 == name {
        Some(rows[choose|i: int| 0 <= i < rows.len() && #[trigger] rows[i].0 == name].1)
    } else {
        None
    }
}

/// The rows with a row for the name put in its place, or put in place of the row that has the
/// name already.
pub open spec fn inserted<V>(
    rows: Seq<(Seq<char>, V)>,
    name: Seq<char>,
    value: V,
) -> Seq<(Seq<char>, V)>
    decreases rows.len(),
{
    if rows.len() == 0 {
        seq![(name, value)]
    } else if rows[0].0 == name {
        seq![(name, value)] + rows.drop_first()
    } else if precedes(name, rows[0].0) {
        seq![(name, value)] + rows
    } else {
        seq![rows[0]] + inserted(rows.drop_first(), name, value)
    }
}

/// In ascending rows a name occurs once, so that any row that has it gives the value.
pub proof fn lemma_value_of<V>(rows: Seq<(Seq<char>, V)>, i: int)
    requires
        ascending(rows),
        0 <= i < rows.len(),
    ensures
        value_of(rows, rows[i].0) == Some(rows[i].1),
{
    let name = rows[i].0;
    let j = choose|j: int| 0 <= j < rows.len() && #[trigger] rows[j].0 == name;
    assert(0 <= j < rows.len() && rows[j].0 == name);
    lemma_precedes_irreflexive(name);
    if i < j {
        assert(precedes(rows[i].0, rows[j].0));
    } else if j < i {
        assert(precedes(rows[j].0, rows[i].0));
    }
}

proof fn lemma_insert_at<V>(rows: Seq<(Seq<char>, V)>, name: Seq<char>, value: V, at: int)
    requires
        0 <= at <= rows.len(),
        forall|i: int| 0 <= i < at ==> precedes(#[trigger] rows[i].0, name),
        at < rows.len() ==> precedes(name, rows[at].0),
    ensures
        inserted(rows, name, value) == rows.insert(at, (name, value)),
    decreases rows.len(),
{
    lemma_precedes_irreflexive(name);
    if at == 0 {
        assert(inserted(rows, name, value) =~= rows.insert(at, (name, value)));
    } else {
        let rest = rows.drop_first();
        assert(precedes(rows[0].0, name));
        if precedes(name, rows[0].0) {
            lemma_precedes_transitive(name, rows[0].0, name);
        }
        assert forall|i: int| 0 <= i < at - 1 implies precedes(#[trigger] rest[i].0, name) by {
            assert(rest[i] == rows[i + 1]);
        }
        lemma_insert_at(rest, name, value, at - 1);
        assert(inserted(rows, name, value) =~= rows.insert(at, (name, value)));
    }
}

proof fn lemma_replace_at<V>(rows: Seq<(Seq<char>, V)>, name: Seq<char>, value: V, at: int)
    requires
        0 <= at < rows.len(),
        forall|i: int| 0 <= i < at ==> precedes(#[trigger] rows[i].0, name),
        rows[at].0 == name,
    ensures
        inserted(rows, name, value) == rows.update(at, (name, value)),
    decreases rows.len(),
{
    lemma_precedes_irreflexive(name);
    if at == 0 {
        assert(inserted(rows, name, value) =~= rows.update(at, (name, value)));
    } else {
        let rest = rows.drop_first();
        assert(precedes(rows[0].0, name));
        if precedes(name, rows[0].0) {
            lemma_precedes_transitive(name, rows[0].0, name);
        }
        assert forall|i: int| 0 <= i < at - 1 implies precedes(#[trigger] rest[i].0, name) by {
            assert(rest[i] == rows[i + 1]);
        }
        lemma_replace_at(rest, name, value, at - 1);
        assert(inserted(rows, name, value) =~= rows.update(at, (name, value)));
    }
}

/// What an insertion does to ascending rows: they stay ascending, the name has the new value,
/// and every other name has the value that it had.
pub proof fn lemma_inserted<V>(rows: Seq<(Seq<char>, V)>, name: Seq<char>, value: V)
    requires
        ascending(rows),
    ensures
        ascending(inserted(rows, name, value)),
        value_of(inserted(rows, name, value), name) == Some(value),
        forall|other: Seq<char>|
            other != name ==> value_of(inserted(rows, name, value), other) == #[trigger] value_of(
                rows,
                other,
            ),
{
    let new = inserted(rows, name, value);
    lemma_inserted_rows(rows, name, value);
    let k = choose|k: int| 0 <= k < new.len() && #[trigger] new[k] == (name, value);
    lemma_value_of(new, k);
    assert forall|other: Seq<char>| other != name implies value_of(new, other)
        == #[trigger] value_of(rows, other) by {
        if value_of(rows, other) is Some {
            let i = choose|i: int| 0 <= i < rows.len() && #[trigger] rows[i].0 == other;
            assert(new.contains(rows[i]));
            let j = choose|j: int| 0 <= j < new.len() && new[j] == rows[i];
            lemma_value_of(new, j);
            lemma_value_of(rows, i);
        } else if value_of(new, other) is Some {
            let j = choose|j: int| 0 <= j < new.len() && #[trigger] new[j].0 == other;
            assert(rows.contains(new[j]));
            let i = choose|i: int| 0 <= i < rows.len() && rows[i] == new[j];
            assert(rows[i].0 == other);
        }
    }
}

/// The rows after an insertion are the new row and the rows before that have another name.
pub proof fn lemma_inserted_rows<V>(rows: Seq<(Seq<char>, V)>, name: Seq<char>, value: V)
    requires
        ascending(rows),
    ensures
        ascending(inserted(rows, name, value)),
        inserted(rows, name, value).contains((name, value)),
        forall|i: int|
            0 <= i < rows.len() && rows[i].0 != name ==> inserted(rows, name, value).contains(
                #[trigger] rows[i],
            ),
        forall|j: int|
            0 <= j < inserted(rows, name, value).len() ==> (#[trigger] inserted(
                rows,
                name,
                value,
            )[j] == (name, value) || (rows.contains(inserted(rows, name, value)[j]) && inserted(
                rows,
                name,
                value,
            )[j].0 != name)),
    decreases rows.len(),
{
    let new = inserted(rows, name, value);
    if rows.len() == 0 {
        assert(new[0] == (name, value));
    } else if rows[0].0 == name {
        assert(new[0] == (name, value));
        lemma_precedes_irreflexive(name);
        assert forall|j: int| 1 <= j < new.len() implies rows.contains(#[trigger] new[j])
            && new[j].0 != name by {
            assert(new[j] == rows[j]);
            assert(precedes(rows[0].0, rows[j].0));
        }
        assert forall|i: int| 0 <= i < rows.len() && rows[i].0 != name implies new.contains(
            #[trigger] rows[i],
        ) by {
            assert(new[i] == rows[i]);
        }
        assert(ascending(new)) by {
            assert forall|i: int, j: int| 0 <= i < j < new.len() implies precedes(
                #[trigger] new[i].0,
                #[trigger] new[j].0,
            ) by {
                assert(new[i].0 == rows[i].0 && new[j].0 == rows[j].0);
            }
        }
    } else if precedes(name, rows[0].0) {
        assert(new[0] == (name, value));
        lemma_precedes_irreflexive(name);
        assert forall|j: int| 1 <= j < new.len() implies rows.contains(#[trigger] new[j])
            && new[j].0 != name && precedes(name, new[j].0) by {
            assert(new[j] == rows[j - 1]);
            if j > 1 {
                lemma_precedes_transitive(name, rows[0].0, rows[j - 1].0);
            }
        }
        assert forall|i: int| 0 <= i < rows.len() && rows[i].0 != name implies new.contains(
            #[trigger] rows[i],
        ) by {
            assert(new[i + 1] == rows[i]);
        }
        assert forall|i: int, j: int| 0 <= i < j < new.len() implies precedes(
            #[trigger] new[i].0,
            #[trigger] new[j].0,
        ) by {
            if i > 0 {
                assert(new[i] == rows[i - 1] && new[j] == rows[j - 1]);
            }
        }
    } else {
        let rest = rows.drop_first();
        assert forall|i: int, j: int| 0 <= i < j < rest.len() implies precedes(
            #[trigger] rest[i].0,
            #[trigger] rest[j].0,
        ) by {
            assert(rest[i] == rows[i + 1] && rest[j] == rows[j + 1]);
        }
        lemma_inserted_rows(rest, name, value);
        let tail = inserted(rest, name, value);
        crate::text::lemma_precedes_total(name, rows[0].0);
        assert(new[0] == rows[0]);
        assert forall|j: int| 1 <= j < new.len() implies (#[trigger] new[j] == (name, value)
            || (rows.contains(new[j]) && new[j].0 != name)) && precedes(rows[0].0, new[j].0) by {
            assert(new[j] == tail[j - 1]);
            if tail[j - 1] != (name, value) {
                let k = choose|k: int| 0 <= k < rest.len() && rest[k] == tail[j - 1];
                assert(rows[k + 1] == new[j]);
            }
        }
        assert(rows.contains(new[0]));
        let k = choose|k: int| 0 <= k < tail.len() && tail[k] == (name, value);
        assert(new[k + 1] == (name, value));
        assert forall|i: int| 0 <= i < rows.len() && rows[i].0 != name implies new.contains(
            #[trigger] rows[i],
        ) by {
            if i > 0 {
                assert(rest[i - 1] == rows[i]);
                let k = choose|k: int| 0 <= k < tail.len() && tail[k] == rest[i - 1];
                assert(new[k + 1] == rows[i]);
            }
        }
        assert forall|i: int, j: int| 0 <= i < j < new.len() implies precedes(
            #[trigger] new[i].0,
            #[trigger] new[j].0,
        ) by {
            if i > 0 {
                assert(new[i] == tail[i - 1] && new[j] == tail[j - 1]);
            }
        }
    }
}

/// Ascending rows that give each name the same value are the same rows.
pub proof fn lemma_same_rows<V>(a: Seq<(Seq<char>, V)>, b: Seq<(Seq<char>, V)>)
    requires
        ascending(a),
        ascending(b),
        forall|name: Seq<char>| #[trigger] value_of(a, name) == value_of(b, name),
    ensures
        a == b,
    decreases a.len(),
{
    if a.len() == 0 {
        if b.len() > 0 {
            lemma_value_of(b, 0);
            assert(value_of(a, b[0].0) is Some);
        }
        assert(a =~= b);
    } else {
        lemma_value_of(a, 0);
        assert(value_of(b, a[0].0) is Some);
        let j = choose|j: int| 0 <= j < b.len() && #[trigger] b[j].0 == a[0].0;
        lemma_value_of(b, 0);
        assert(value_of(a, b[0].0) is Some);
        let k = choose|k: int| 0 <= k < a.len() && #[trigger] a[k].0 == b[0].0;
        if j > 0 {
            assert(precedes(b[0].0, b[j].0));
            lemma_precedes_irreflexive(a[0].0);
            if k > 0 {
                assert(precedes(a[0].0, a[k].0));
                lemma_precedes_transitive(a[0].0, b[0].0, a[0].0);
            }
        }
        assert(a[0] == b[0]);
        let x = a.drop_first();
        let y = b.drop_first();
        assert forall|name: Seq<char>| #[trigger] value_of(x, name) == value_of(y, name) by {
            lemma_value_of_rest(a, name);
            lemma_value_of_rest(b, name);
            assert(value_of(a, name) == value_of(b, name));
        }
        lemma_same_rows(x, y);
        assert(a =~= seq![a[0]] + x);
        assert(b =~= seq![b[0]] + y);
    }
}

/// Without the first row, the rows give every other name what they gave it.
proof fn lemma_value_of_rest<V>(rows: Seq<(Seq<char>, V)>, name: Seq<char>)
    requires
        ascending(rows),
        rows.len() > 0,
    ensures
        ascending(rows.drop_first()),
        value_of(rows.drop_first(), name) == (if name == rows[0].0 {
            None
        } else {
            value_of(rows, name)
        }),
{
    let rest = rows.drop_first();
    assert forall|i: int, j: int| 0 <= i < j < rest.len() implies precedes(
        #[trigger] rest[i].0,
        #[trigger] rest[j].0,
    ) by {
        assert(precedes(rows[i + 1].0, rows[j + 1].0));
    }
    lemma_precedes_irreflexive(name);
    if exists|i: int| 0 <= i < rest.len() && #[trigger] rest[i].0 == name {
        let i = choose|i: int| 0 <= i < rest.len() && #[trigger] rest[i].0 == name;
        assert(precedes(rows[0].0, rows[i + 1].0));
        lemma_value_of(rest, i);
        lemma_value_of(rows, i + 1);
    } else if exists|i: int| 0 <= i < rows.len() && #[trigger] rows[i].0 == name {
        let i = choose|i: int| 0 <= i < rows.len() && #[trigger] rows[i].0 == name;
        if i > 0 {
            assert(rest[i - 1].0 == name);
        }
    }
}

/// A row whose name comes after all others is put at the end.
pub proof fn lemma_inserted_last<V>(rows: Seq<(Seq<char>, V)>, name: Seq<char>, value: V)
    requires
        forall|i: int| 0 <= i < rows.len() ==> precedes(#[trigger] rows[i].0, name),
    ensures
        inserted(rows, name, value) == rows.push((name, value)),
{
    lemma_insert_at(rows, name, value, rows.len() as int);
    assert(rows.insert(rows.len() as int, (name, value)) =~= rows.push((name, value)));
}

/// A map from names to values. Its rows are kept in ascending order of the names.
#[derive(Debug)]
pub struct SortedMap<V> {
    entries: Vec<(String, V)>,
}

impl<V> SortedMap<V> {
    /// The rows in ascending order of the names.
    pub closed spec fn rows(&self) -> Seq<(Seq<char>, V)> {
        Seq::new(self.entries@.len(), |i: int| (self.entries@[i].0@, self.entries@[i].1))
    }

    #[verifier::type_invariant]
    closed spec fn sorted(self) -> bool {
        ascending(self.rows())
    }

    /// The value of a name.
    pub open spec fn find(&self, name: Seq<char>) -> Option<V> {
        value_of(self.rows(), name)
    }

    /// The map without rows.
    pub fn new() -> (r: Self)
        ensures
            r.rows() == Seq::<(Seq<char>, V)>::empty(),
            forall|name: Seq<char>| (#[trigger] r.find(name)) is None,
    {
        let r = SortedMap { entries: Vec::new() };
        assert(r.rows() =~= Seq::<(Seq<char>, V)>::empty());
        r
    }

    /// How many rows precede the name, and whether the next row has it.
    fn position(&self, name: &str) -> (r: (usize, bool))
        ensures
            r.0 <= self.rows().len() == self.entries@.len(),
            forall|i: int| 0 <= i < r.0 ==> precedes(#[trigger] self.rows()[i].0, name@),
            r.1 ==> r.0 < self.rows().len() && self.rows()[r.0 as int].0 == name@,
            !r.1 && r.0 < self.rows().len() ==> precedes(name@, self.rows()[r.0 as int].0),
    {
        proof {
            use_type_invariant(self);
        }
        let mut low: usize = 0;
        let mut high: usize = self.entries.len();
        while low < high
            invariant
                ascending(self.rows()),
                low <= high <= self.entries@.len() == self.rows().len(),
                forall|i: int| 0 <= i < low ==> precedes(#[trigger] self.rows()[i].0, name@),
                high < self.rows().len() ==> precedes(name@, self.rows()[high as int].0),
            decreases high - low,
        {
            let middle: usize = low + (high - low) / 2;
            let ghost here = self.rows()[middle as int].0;
            match place(self.entries[middle].0.as_str(), name) {
                Place::Before => {
                    proof {
                        assert forall|i: int| 0 <= i < middle implies precedes(
                            #[trigger] self.rows()[i].0,
                            name@,
                        ) by {
                            lemma_precedes_transitive(self.rows()[i].0, here, name@);
                        }
                    }
                    low = middle + 1;
                },
                Place::Same => {
                    return (middle, true);
                },
                Place::After => {
                    high = middle;
                },
            }
        }
        (low, false)
    }

    /// Gives the name a value, in place of the one that it may have.
    pub fn insert(&mut self, name: String, value: V)
        ensures
            final(self).rows() == inserted(old(self).rows(), name@, value),
            final(self).find(name@) == Some(value),
            forall|other: Seq<char>|
                other != name@ ==> final(self).find(other) == #[trigger] old(self).find(other),
    {
        proof {
            use_type_invariant(&*self);
            lemma_inserted(self.rows(), name@, value);
        }
        let ghost before = self.rows();
        let (at, found) = self.position(name.as_str());
        let mut entries: Vec<(String, V)> = Vec::new();
        std::mem::swap(&mut entries, &mut self.entries);
        if found {
            proof {
                lemma_replace_at(before, name@, value, at as int);
            }
            entries.set(at, (name, value));
        } else {
            proof {
                lemma_insert_at(before, name@, value, at as int);
            }
            entries.insert(at, (name, value));
        }
        assert(Seq::new(entries@.len(), |i: int| (entries@[i].0@, entries@[i].1)) =~= inserted(
            before,
            name@,
            value,
        ));
        self.entries = entries;
    }

    /// The value of a name.
    pub fn get(&self, name: &str) -> (r: Option<&V>)
        ensures
            r is Some <==> self.find(name@) is Some,
            r matches Some(value) ==> self.find(name@) == Some(*value),
    {
        proof {
            use_type_invariant(self);
        }
        let (at, found) = self.position(name);
        if found {
            proof {
                lemma_value_of(self.rows(), at as int);
            }
            Some(&self.entries[at].1)
        } else {
            proof {
                lemma_precedes_irreflexive(name@);
                assert forall|i: int| 0 <= i < self.rows().len() implies #[trigger] self.rows()[i].0
                    != name@ by {
                    if i > at {
                        lemma_precedes_transitive(
                            name@,
                            self.rows()[at as int].0,
                            self.rows()[i].0,
                        );
                    }
                }
            }
            None
        }
    }

    /// Whether the name has a value.
    pub fn contains(&self, name: &str) -> (r: bool)
        ensures
            r == (self.find(name@) is Some),
    {
        self.get(name).is_some()
    }

    /// The number of rows.
    pub fn len(&self) -> (r: usize)
        ensures
            r == self.rows().len(),
            ascending(self.rows()),
    {
        proof {
            use_type_invariant(self);
        }
        self.entries.len()
    }

    /// The name in a row.
    pub fn name(&self, i: usize) -> (r: &String)
        requires
            i < self.rows().len(),
        ensures
            r@ == self.rows()[i as int].0,
    {
        &self.entries[i].0
    }

    /// The value in a row.
    pub fn value(&self, i: usize) -> (r: &V)
        requires
            i < self.rows().len(),
        ensures
            *r == self.rows()[i as int].1,
    {
        &self.entries[i].1
    }
}

} // verus!
