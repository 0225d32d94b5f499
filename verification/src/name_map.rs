//! A small map keyed by names, kept in the order in which the names first
//! came. Its model is the sequence of its entries, no name twice, and the
//! `Map` that the sequence spells out.

use crate::text::same_text;
use vstd::prelude::*;

verus! {

/// The map that a sequence of entries spells out, read left to right: a
/// later entry for a name replaces an earlier one.
pub open spec fn to_map<V>(entries: Seq<(Seq<char>, V)>) -> Map<Seq<char>, V>
    decreases entries.len(),
{
    if entries.len() == 0 {
        Map::empty()
    } else {
        to_map(entries.drop_last()).insert(entries.last().0, entries.last().1)
    }
}

/// Whether no name occurs twice among the entries.
pub open spec fn distinct_names<V>(entries: Seq<(Seq<char>, V)>) -> bool {
    forall|i: int, j: int|
        0 <= i < j < entries.len() ==> (#[trigger] entries[i]).0 != (#[trigger] entries[j]).0
}

/// The names of `to_map` are the names of the entries.
pub proof fn lemma_to_map_dom<V>(entries: Seq<(Seq<char>, V)>, name: Seq<char>)
    ensures
        to_map(entries).contains_key(name) <==> exists|i: int|
            0 <= i < entries.len() && (#[trigger] entries[i]).0 == name,
    decreases entries.len(),
{
    if entries.len() > 0 {
        let front = entries.drop_last();
        lemma_to_map_dom(front, name);
        if to_map(entries).contains_key(name) {
            if entries.last().0 == name {
                assert(entries[entries.len() - 1].0 == name);
            } else {
                let i = choose|i: int| 0 <= i < front.len() && (#[trigger] front[i]).0 == name;
                assert(entries[i].0 == name);
            }
        }
        if exists|i: int| 0 <= i < entries.len() && (#[trigger] entries[i]).0 == name {
            let i = choose|i: int| 0 <= i < entries.len() && (#[trigger] entries[i]).0 == name;
            if i < front.len() {
                assert(front[i].0 == name);
            }
        }
    }
}

/// Where no name occurs twice, each entry is what `to_map` holds for its
/// name.
pub proof fn lemma_to_map_entry<V>(entries: Seq<(Seq<char>, V)>, i: int)
    requires
        distinct_names(entries),
        0 <= i < entries.len(),
    ensures
        to_map(entries).contains_key(entries[i].0),
        to_map(entries)[entries[i].0] == entries[i].1,
    decreases entries.len(),
{
    let front = entries.drop_last();
    if i < entries.len() - 1 {
        assert(distinct_names(front)) by {
            assert forall|a: int, b: int| 0 <= a < b < front.len() implies (#[trigger] front[a]).0
                != (#[trigger] front[b]).0 by {
                assert(entries[a].0 != entries[b].0);
            }
        }
        lemma_to_map_entry(front, i);
        assert(entries[i].0 != entries[entries.len() - 1].0);
    }
}

/// Where no name occurs twice, replacing the value of the `i`-th entry is
/// an `insert` on the map.
pub proof fn lemma_to_map_update<V>(entries: Seq<(Seq<char>, V)>, i: int, value: V)
    requires
        distinct_names(entries),
        0 <= i < entries.len(),
    ensures
        distinct_names(entries.update(i, (entries[i].0, value))),
        to_map(entries.update(i, (entries[i].0, value))) == to_map(entries).insert(
            entries[i].0,
            value,
        ),
    decreases entries.len(),
{
    let name = entries[i].0;
    let after = entries.update(i, (name, value));
    let front = entries.drop_last();
    assert(distinct_names(after)) by {
        assert forall|a: int, b: int| 0 <= a < b < after.len() implies (#[trigger] after[a]).0 != (
        #[trigger] after[b]).0 by {
            assert(entries[a].0 != entries[b].0);
        }
    }
    if i == entries.len() - 1 {
        assert(after.drop_last() =~= front);
        assert(to_map(after) =~= to_map(entries).insert(name, value));
    } else {
        assert(distinct_names(front)) by {
            assert forall|a: int, b: int| 0 <= a < b < front.len() implies (#[trigger] front[a]).0
                != (#[trigger] front[b]).0 by {
                assert(entries[a].0 != entries[b].0);
            }
        }
        lemma_to_map_update(front, i, value);
        assert(after.drop_last() =~= front.update(i, (name, value)));
        assert(entries[i].0 != entries[entries.len() - 1].0);
        assert(to_map(after) =~= to_map(entries).insert(name, value));
    }
}

/// A map from names to values of type `V`.
#[derive(Debug)]
pub struct NameMap<V> {
    names: Vec<String>,
    values: Vec<V>,
}

impl<V: Copy> View for NameMap<V> {
    type V = Map<Seq<char>, V>;

    /// The map that the entries spell out.
    open spec fn view(&self) -> Map<Seq<char>, V> {
        to_map(self.entries())
    }
}

impl<V: Copy> NameMap<V> {
    /// The entries, in the order in which their names first came.
    pub closed spec fn entries(&self) -> Seq<(Seq<char>, V)> {
        Seq::new(self.names.len() as nat, |i: int| (self.names[i]@, self.values[i]))
    }

    /// The invariant: no name occurs twice.
    pub closed spec fn wf(&self) -> bool {
        &&& self.names.len() == self.values.len()
        &&& distinct_names(self.entries())
    }

    /// What `wf` says of the entries.
    pub proof fn lemma_wf(&self)
        requires
            self.wf(),
        ensures
            distinct_names(self.entries()),
    {
    }

    /// A map without entries.
    pub fn new() -> (m: Self)
        ensures
            m.wf(),
            m.entries() == Seq::<(Seq<char>, V)>::empty(),
            m@ == Map::<Seq<char>, V>::empty(),
    {
        let m = NameMap { names: Vec::new(), values: Vec::new() };
        assert(m.entries() =~= Seq::<(Seq<char>, V)>::empty());
        m
    }

    /// The number of entries.
    pub fn len(&self) -> (n: usize)
        requires
            self.wf(),
        ensures
            n == self.entries().len(),
    {
        self.names.len()
    }

    /// The name of the `i`-th entry.
    pub fn name_at(&self, i: usize) -> (name: &String)
        requires
            self.wf(),
            i < self.entries().len(),
        ensures
            name@ == self.entries()[i as int].0,
    {
        &self.names[i]
    }

    /// The value of the `i`-th entry.
    pub fn value_at(&self, i: usize) -> (value: V)
        requires
            self.wf(),
            i < self.entries().len(),
        ensures
            value == self.entries()[i as int].1,
    {
        self.values[i]
    }

    /// The index of the entry for `name`, if there is one.
    pub fn position(&self, name: &str) -> (r: Option<usize>)
        requires
            self.wf(),
        ensures
            match r {
                Some(i) => i < self.entries().len() && self.entries()[i as int].0 == name@,
                None => !self@.contains_key(name@),
            },
    {
        let mut i: usize = 0;
        while i < self.names.len()
            invariant
                i <= self.names.len(),
                self.wf(),
                forall|j: int| 0 <= j < i ==> (#[trigger] self.entries()[j]).0 != name@,
            decreases self.names.len() - i,
        {
            if same_text(self.names[i].as_str(), name) {
                return Some(i);
            }
            i = i + 1;
        }
        proof {
            lemma_to_map_dom(self.entries(), name@);
        }
        None
    }

    /// The value that the map holds for `name`, if any.
    pub fn get(&self, name: &str) -> (r: Option<V>)
        requires
            self.wf(),
        ensures
            r == if self@.contains_key(name@) {
                Some(self@[name@])
            } else {
                None
            },
    {
        match self.position(name) {
            Some(i) => {
                proof {
                    lemma_to_map_entry(self.entries(), i as int);
                }
                Some(self.values[i])
            },
            None => None,
        }
    }

    /// Sets the value for `name`, replacing the one that was there. A new
    /// name goes to the end; a name that was there keeps its place.
    pub fn set(&mut self, name: String, value: V)
        requires
            old(self).wf(),
        ensures
            final(self).wf(),
            final(self)@ == old(self)@.insert(name@, value),
            final(self).entries() == match old(self).position_of(name@) {
                Some(i) => old(self).entries().update(i, (name@, value)),
                None => old(self).entries().push((name@, value)),
            },
    {
        let ghost before = self.entries();
        match self.position(name.as_str()) {
            Some(i) => {
                self.values.set(i, value);
                proof {
                    lemma_to_map_update(before, i as int, value);
                    assert(self.entries() =~= before.update(i as int, (name@, value)));
                    old(self).lemma_position_of(name@);
                }
            },
            None => {
                self.names.push(name);
                self.values.push(value);
                proof {
                    lemma_to_map_dom(before, name@);
                    old(self).lemma_position_of(name@);
                    assert(self.entries() =~= before.push((name@, value)));
                    assert(self.entries().drop_last() =~= before);
                }
            },
        }
    }

    /// The index of the entry for `name`, if there is one.
    pub open spec fn position_of(&self, name: Seq<char>) -> Option<int> {
        if self@.contains_key(name) {
            Some(choose|i: int| 0 <= i < self.entries().len() && (#[trigger] self.entries()[i]).0
                == name)
        } else {
            None
        }
    }

    /// `position_of` is the one index at which the name stands.
    pub proof fn lemma_position_of(&self, name: Seq<char>)
        requires
            self.wf(),
        ensures
            match self.position_of(name) {
                Some(i) => 0 <= i < self.entries().len() && self.entries()[i].0 == name
                    && forall|j: int|
                    0 <= j < self.entries().len() && (#[trigger] self.entries()[j]).0 == name ==> j
                        == i,
                None => forall|j: int|
                    0 <= j < self.entries().len() ==> (#[trigger] self.entries()[j]).0 != name,
            },
    {
        lemma_to_map_dom(self.entries(), name);
    }
}

} // verus!
