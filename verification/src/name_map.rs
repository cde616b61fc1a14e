//! A map keyed by names, walked in the order of the names.

use crate::bake::names::{comes_before, lemma_lex_irreflexive, lemma_lex_total, lemma_lex_transitive, lex_less, strictly_sorted};
use crate::strings::same_text;
use vstd::prelude::*;

verus! {

/// A map from names to values. Its entries are kept sorted by name.
pub struct NameMap<V> {
    pub entries: Vec<(String, V)>,
}

/// The names of a list of entries.
pub open spec fn entry_names<V>(entries: Seq<(String, V)>) -> Seq<Seq<char>> {
    Seq::new(entries.len(), |i: int| entries[i].0@)
}

impl<V> NameMap<V> {
    /// The names, in order.
    pub open spec fn names(self) -> Seq<Seq<char>> {
        entry_names(self.entries@)
    }

    /// The names are sorted and none occurs twice.
    pub open spec fn wf(self) -> bool {
        strictly_sorted(self.names())
    }

    /// The value at a name, if there is one.
    pub open spec fn lookup(self, name: Seq<char>) -> Option<V> {
        if self.names().contains(name) {
            Some(self.entries@[self.names().index_of(name)].1)
        } else {
            None
        }
    }

    /// A map without entries.
    pub fn new() -> (r: Self)
        ensures
            r.wf(),
            r.entries@.len() == 0,
    {
        NameMap { entries: Vec::new() }
    }

    /// How many names the map holds.
    pub fn len(&self) -> (r: usize)
        ensures
            r == self.entries@.len(),
    {
        self.entries.len()
    }

    /// The value at `name`.
    pub fn get(&self, name: &str) -> (r: Option<&V>)
        requires
            self.wf(),
        ensures
            r is Some <==> self.lookup(name@) is Some,
            r matches Some(v) ==> self.lookup(name@) == Some(*v),
    {
        let mut i: usize = 0;
        while i < self.entries.len()
            invariant
                i <= self.entries.len(),
                self.wf(),
                forall|k: int| 0 <= k < i ==> self.names()[k] != name@,
            decreases self.entries.len() - i,
        {
            if same_text(self.entries[i].0.as_str(), name) {
                proof {
                    lemma_index(self.names(), i as int);
                    assert(self.names()[i as int] == name@);
                    assert(self.names().contains(name@));
                }
                return Some(&self.entries[i].1);
            }
            assert(self.names()[i as int] != name@);
            i = i + 1;
        }
        assert(!self.names().contains(name@));
        None
    }

    /// Does the map hold `name`?
    pub fn contains(&self, name: &str) -> (r: bool)
        requires
            self.wf(),
        ensures
            r == self.names().contains(name@),
    {
        match self.get(name) {
            Some(_) => true,
            None => false,
        }
    }

    /// Put `value` at `name`, in place of what was there.
    pub fn insert(&mut self, name: String, value: V)
        requires
            old(self).wf(),
        ensures
            final(self).wf(),
            final(self).lookup(name@) == Some(value),
            forall|other: Seq<char>|
                other != name@ ==> #[trigger] final(self).lookup(other) == old(self).lookup(other),
            forall|other: Seq<char>| #[trigger]
                final(self).names().contains(other) <==> other == name@ || old(
                    self,
                ).names().contains(other),
    {
        let ghost before = *self;
        let n: usize = self.entries.len();
        let mut i: usize = 0;
        while i < n && comes_before(self.entries[i].0.as_str(), name.as_str())
            invariant
                *self == before,
                n == self.entries.len(),
                i <= n,
                forall|k: int| 0 <= k < i ==> lex_less(#[trigger] self.names()[k], name@),
            ensures
                *self == before,
                i <= n,
                forall|k: int| 0 <= k < i ==> lex_less(#[trigger] self.names()[k], name@),
                i < n ==> !lex_less(self.names()[i as int], name@),
            decreases n - i,
        {
            assert(self.names()[i as int] == self.entries@[i as int].0@);
            i = i + 1;
        }
        let ghost key = name@;
        if i < n && same_text(self.entries[i].0.as_str(), name.as_str()) {
            self.entries.remove(i);
            self.entries.insert(i, (name, value));
            assert(self.names() =~= before.names());
            proof {
                lemma_index(before.names(), i as int);
                assert(before.names()[i as int] == key);
                assert(before.names().contains(key));
                assert forall|other: Seq<char>| other != key implies #[trigger] self.lookup(other)
                    == before.lookup(other) by {
                    if before.names().contains(other) {
                        let j = before.names().index_of(other);
                        assert(before.names()[j] == other);
                        assert(j != i);
                    }
                }
            }
        } else {
            self.entries.insert(i, (name, value));
            proof {
                let names = before.names();
                assert(self.names() =~= names.insert(i as int, key));
                lemma_insert_sorted(names, i as int, key);
                lemma_index(self.names(), i as int);
                assert(self.names()[i as int] == key);
                assert forall|other: Seq<char>| #[trigger]
                    self.names().contains(other) <==> other == key || names.contains(other) by {
                    if names.contains(other) {
                        let j = names.index_of(other);
                        assert(names[j] == other);
                        if j < i {
                            assert(self.names()[j] == other);
                        } else {
                            assert(self.names()[j + 1] == other);
                        }
                    }
                    if self.names().contains(other) && other != key {
                        let j = self.names().index_of(other);
                        assert(self.names()[j] == other);
                        if j < i {
                            assert(names[j] == other);
                        } else {
                            assert(names[j - 1] == other);
                        }
                    }
                }
                assert(self.names().contains(key));
                assert forall|other: Seq<char>| other != key implies #[trigger] self.lookup(other)
                    == before.lookup(other) by {
                    if names.contains(other) {
                        let j = names.index_of(other);
                        assert(names[j] == other);
                        let k = if j < i { j } else { j + 1 };
                        assert(self.names()[k] == other);
                        lemma_index(self.names(), k);
                    } else {
                        assert(!self.names().contains(other));
                    }
                }
            }
        }
    }
}

/// In a strictly sorted list a name stands in one place only.
pub proof fn lemma_index(names: Seq<Seq<char>>, i: int)
    requires
        strictly_sorted(names),
        0 <= i < names.len(),
    ensures
        names.index_of(names[i]) == i,
        names.contains(names[i]),
{
    let j = names.index_of(names[i]);
    assert(names.contains(names[i]));
    assert(0 <= j < names.len() && names[j] == names[i]);
    lemma_lex_irreflexive(names[i]);
    if i < j {
        assert(lex_less(names[i], names[j]));
    }
    if j < i {
        assert(lex_less(names[j], names[i]));
    }
}

proof fn lemma_insert_sorted(names: Seq<Seq<char>>, i: int, key: Seq<char>)
    requires
        strictly_sorted(names),
        0 <= i <= names.len(),
        forall|k: int| 0 <= k < i ==> lex_less(#[trigger] names[k], key),
        i < names.len() ==> !lex_less(names[i], key) && names[i] != key,
    ensures
        strictly_sorted(names.insert(i, key)),
{
    let t = names.insert(i, key);
    if i < names.len() {
        lemma_lex_total(names[i], key);
    }
    assert forall|a: int, b: int| 0 <= a < b < t.len() implies lex_less(
        #[trigger] t[a],
        #[trigger] t[b],
    ) by {
        if a == i {
            assert(t[b] == names[b - 1]);
            if b - 1 > i {
                assert(lex_less(names[i], names[b - 1]));
                lemma_lex_transitive(key, names[i], names[b - 1]);
            }
        } else if b == i {
            assert(t[a] == names[a]);
        } else {
            let x = if a < i { a } else { a - 1 };
            let y = if b < i { b } else { b - 1 };
            assert(t[a] == names[x] && t[b] == names[y]);
            assert(lex_less(names[x], names[y]));
        }
    }
}

} // verus!
