//! A map keyed by name that remembers the order in which names were first
//! inserted.
//!
//! The statistics tables of this crate are small (one entry per language or
//! per keyword), are walked far more often than they are probed, and must be
//! walked in an order that does not change from run to run.

use vstd::prelude::*;
use crate::text::str_eq;

verus! {

/// An insertion-ordered map from names to values. No name occurs twice.
#[derive(Debug, PartialEq)]
pub struct NameMap<V> {
    entries: Vec<(String, V)>,
}

impl<V> View for NameMap<V> {
    type V = Map<Seq<char>, V>;

    /// The map from each name to the value stored under it.
    open spec fn view(&self) -> Map<Seq<char>, V> {
        Map::new(
            |k: Seq<char>| self.names().contains(k),
            |k: Seq<char>| self.values()[self.names().index_of(k)],
        )
    }
}

/// The names of a sequence of entries.
pub open spec fn entry_names<V>(entries: Seq<(Seq<char>, V)>) -> Seq<Seq<char>> {
    entries.map_values(|e: (Seq<char>, V)| e.0)
}

/// The values of a sequence of entries.
pub open spec fn entry_values<V>(entries: Seq<(Seq<char>, V)>) -> Seq<V> {
    entries.map_values(|e: (Seq<char>, V)| e.1)
}

/// The entries whose names are in `listed`, or, with `keep_listed` false, the
/// entries whose names are not, in their order.
pub open spec fn kept<V>(
    entries: Seq<(Seq<char>, V)>,
    listed: Seq<Seq<char>>,
    keep_listed: bool,
) -> Seq<(Seq<char>, V)>
    decreases entries.len(),
{
    if entries.len() == 0 {
        entries
    } else if listed.contains(entries.last().0) == keep_listed {
        kept(entries.drop_last(), listed, keep_listed).push(entries.last())
    } else {
        kept(entries.drop_last(), listed, keep_listed)
    }
}

/// The entries with `value` under `name`: in place where the name is
/// present, at the end where it is new.
pub open spec fn upsert<V>(entries: Seq<(Seq<char>, V)>, name: Seq<char>, value: V) -> Seq<
    (Seq<char>, V),
> {
    let names = entry_names(entries);
    if names.contains(name) {
        entries.update(names.index_of(name), (name, value))
    } else {
        entries.push((name, value))
    }
}

/// Whether `key` is one of `names`.
pub fn list_contains(names: &Vec<String>, key: &str) -> (found: bool)
    ensures
        found == names@.map_values(|s: String| s@).contains(key@),
{
    let ghost texts = names@.map_values(|s: String| s@);
    let mut i: usize = 0;
    while i < names.len()
        invariant
            i <= names.len(),
            texts == names@.map_values(|s: String| s@),
            forall|j: int| 0 <= j < i ==> texts[j] != key@,
        decreases names.len() - i,
    {
        if str_eq(names[i].as_str(), key) {
            assert(texts[i as int] == key@);
            return true;
        }
        i += 1;
    }
    false
}

impl<V> NameMap<V> {
    /// The entries in insertion order, each name by its characters.
    pub closed spec fn entries(&self) -> Seq<(Seq<char>, V)> {
        self.entries@.map_values(|e: (String, V)| (e.0@, e.1))
    }

    /// The names in insertion order.
    pub open spec fn names(&self) -> Seq<Seq<char>> {
        entry_names(self.entries())
    }

    /// The values, each at the position of its name in `names`.
    pub open spec fn values(&self) -> Seq<V> {
        entry_values(self.entries())
    }

    /// No name occurs twice.
    pub open spec fn wf(&self) -> bool {
        self.names().no_duplicates()
    }

    /// In a well-formed map the value under the `i`-th name is the `i`-th value.
    pub proof fn lemma_view_at(&self, i: int)
        requires
            self.wf(),
            0 <= i < self.names().len(),
        ensures
            self@.dom().contains(self.names()[i]),
            self@[self.names()[i]] == self.values()[i],
    {
        let k = self.names()[i];
        assert(self.names().contains(k));
        let j = self.names().index_of(k);
        assert(self.names()[j] == k);
    }

    /// An empty map.
    pub fn new() -> (m: Self)
        ensures
            m.entries() == Seq::<(Seq<char>, V)>::empty(),
            m@ == Map::<Seq<char>, V>::empty(),
            m.wf(),
    {
        let m = NameMap { entries: Vec::new() };
        assert(m.entries() =~= Seq::<(Seq<char>, V)>::empty());
        assert(m@ =~= Map::<Seq<char>, V>::empty());
        m
    }

    /// The number of entries.
    pub fn len(&self) -> (n: usize)
        requires
            self.wf(),
        ensures
            n == self.entries().len(),
            n == self@.dom().len(),
            self@.dom().finite(),
    {
        proof {
            self.lemma_dom();
        }
        self.entries.len()
    }

    /// The domain of the view is the set of the names, and as large as their
    /// sequence is long.
    pub proof fn lemma_dom(&self)
        requires
            self.wf(),
        ensures
            self@.dom() == self.names().to_set(),
            self@.dom().finite(),
            self@.dom().len() == self.names().len(),
    {
        assert(self@.dom() =~= self.names().to_set());
        self.names().unique_seq_to_set();
    }

    pub fn is_empty(&self) -> (b: bool)
        ensures
            b == (self.entries().len() == 0),
    {
        self.entries.len() == 0
    }

    /// The position of `key` among the names, if it is one of them.
    pub fn index_of(&self, key: &str) -> (r: Option<usize>)
        ensures
            match r {
                Some(i) => i < self.names().len() && self.names()[i as int] == key@,
                None => !self.names().contains(key@),
            },
    {
        let mut i: usize = 0;
        while i < self.entries.len()
            invariant
                i <= self.entries@.len(),
                forall|j: int| 0 <= j < i ==> self.names()[j] != key@,
            decreases self.entries@.len() - i,
        {
            if str_eq(self.entries[i].0.as_str(), key) {
                return Some(i);
            }
            i += 1;
        }
        None
    }

    /// Whether `key` is one of the names.
    pub fn contains_key(&self, key: &str) -> (b: bool)
        ensures
            b == self@.dom().contains(key@),
    {
        self.index_of(key).is_some()
    }

    /// The value stored under `key`.
    pub fn get(&self, key: &str) -> (r: Option<&V>)
        requires
            self.wf(),
        ensures
            match r {
                Some(v) => self@.dom().contains(key@) && *v == self@[key@],
                None => !self@.dom().contains(key@),
            },
    {
        match self.index_of(key) {
            Some(i) => {
                proof {
                    self.lemma_view_at(i as int);
                }
                Some(&self.entries[i].1)
            },
            None => None,
        }
    }

    /// The `i`-th name in insertion order.
    pub fn name_at(&self, i: usize) -> (name: &String)
        requires
            i < self.names().len(),
        ensures
            name@ == self.names()[i as int],
    {
        &self.entries[i].0
    }

    /// The value stored under the `i`-th name.
    pub fn value_at(&self, i: usize) -> (v: &V)
        requires
            i < self.names().len(),
        ensures
            *v == self.values()[i as int],
    {
        &self.entries[i].1
    }

    /// Replaces the value under the `i`-th name and hands back the old one.
    pub fn replace_at(&mut self, i: usize, value: V) -> (previous: V)
        requires
            old(self).wf(),
            i < old(self).names().len(),
        ensures
            previous == old(self).values()[i as int],
            final(self).names() == old(self).names(),
            final(self).values() == old(self).values().update(i as int, value),
            final(self)@ == old(self)@.insert(old(self).names()[i as int], value),
            final(self).entries() == old(self).entries().update(
                i as int,
                (old(self).names()[i as int], value),
            ),
            final(self).wf(),
    {
        let ghost before = *self;
        let (name, previous) = self.entries.remove(i);
        assert(self.names() =~= before.names().remove(i as int));
        proof {
            before.names().remove_ensures(i as int);
            lemma_remove_keeps_no_duplicates(before.names(), i as int);
        }
        self.entries.insert(i, (name, value));
        assert(self.names() =~= before.names());
        assert(self.values() =~= before.values().update(i as int, value));
        assert(self.entries() =~= before.entries().update(
            i as int,
            (before.names()[i as int], value),
        ));
        proof {
            lemma_update_view(before, *self, i as int, value);
        }
        previous
    }

    /// Stores `value` under `key`: in place where the name is present, at the
    /// end where it is new. Returns the value that was replaced.
    pub fn insert(&mut self, key: String, value: V) -> (previous: Option<V>)
        requires
            old(self).wf(),
        ensures
            final(self)@ == old(self)@.insert(key@, value),
            final(self).wf(),
            final(self).entries() == upsert(old(self).entries(), key@, value),
            match previous {
                Some(p) => old(self)@.dom().contains(key@) && p == old(self)@[key@]
                    && final(self).names() == old(self).names()
                    && final(self).values() == old(self).values().update(
                    old(self).names().index_of(key@),
                    value,
                ),
                None => !old(self)@.dom().contains(key@)
                    && final(self).names() == old(self).names().push(key@)
                    && final(self).values() == old(self).values().push(value),
            },
    {
        let ghost before = *self;
        match self.index_of(key.as_str()) {
            Some(i) => {
                proof {
                    before.lemma_view_at(i as int);
                }
                let previous = self.replace_at(i, value);
                proof {
                    assert(before.names().contains(key@));
                    assert(before.names().index_of(key@) == i);
                    assert(self.entries() =~= upsert(before.entries(), key@, value));
                }
                Some(previous)
            },
            None => {
                self.entries.push((key, value));
                assert(self.names() =~= before.names().push(key@));
                assert(self.values() =~= before.values().push(value));
                assert(self.entries() =~= upsert(before.entries(), key@, value));
                proof {
                    lemma_push_view(before, *self, key@, value);
                }
                None
            },
        }
    }

    /// Removes `key` and the value under it; the other entries keep their order.
    pub fn remove(&mut self, key: &str) -> (removed: Option<V>)
        requires
            old(self).wf(),
        ensures
            final(self)@ == old(self)@.remove(key@),
            final(self).wf(),
            match removed {
                Some(v) => old(self)@.dom().contains(key@) && v == old(self)@[key@]
                    && final(self).names() == old(self).names().remove(
                    old(self).names().index_of(key@),
                ) && final(self).values() == old(self).values().remove(
                    old(self).names().index_of(key@),
                ),
                None => !old(self)@.dom().contains(key@) && final(self).names() == old(
                    self,
                ).names() && final(self).values() == old(self).values(),
            },
    {
        let ghost before = *self;
        match self.index_of(key) {
            Some(i) => {
                proof {
                    before.lemma_view_at(i as int);
                    lemma_remove_keeps_no_duplicates(before.names(), i as int);
                }
                let (_, v) = self.entries.remove(i);
                assert(self.names() =~= before.names().remove(i as int));
                assert(self.values() =~= before.values().remove(i as int));
                proof {
                    lemma_remove_view(before, *self, i as int);
                }
                Some(v)
            },
            None => {
                assert(self@ =~= before@.remove(key@));
                None
            },
        }
    }

    /// Takes out the `i`-th entry; the other entries keep their order.
    pub fn remove_at(&mut self, i: usize) -> (removed: (String, V))
        requires
            old(self).wf(),
            i < old(self).names().len(),
        ensures
            final(self).wf(),
            removed.0@ == old(self).names()[i as int],
            removed.1 == old(self).values()[i as int],
            final(self).entries() == old(self).entries().remove(i as int),
            final(self)@ == old(self)@.remove(old(self).names()[i as int]),
    {
        let ghost before = *self;
        proof {
            lemma_remove_keeps_no_duplicates(before.names(), i as int);
        }
        let removed = self.entries.remove(i);
        assert(self.entries() =~= before.entries().remove(i as int));
        assert(self.names() =~= before.names().remove(i as int));
        assert(self.values() =~= before.values().remove(i as int));
        proof {
            lemma_remove_view(before, *self, i as int);
        }
        removed
    }

    /// Keeps the entries whose names are in `listed`, or, with `keep_listed`
    /// false, the entries whose names are not. The entries keep their order.
    pub fn retain_listed(&mut self, listed: &Vec<String>, keep_listed: bool)
        requires
            old(self).wf(),
        ensures
            final(self).wf(),
            final(self).entries() == kept(
                old(self).entries(),
                listed@.map_values(|s: String| s@),
                keep_listed,
            ),
    {
        let ghost all = self.entries();
        let ghost names = listed@.map_values(|s: String| s@);
        let ghost mut seen: int = 0;
        let mut i: usize = 0;
        proof {
            assert(all.take(0) =~= Seq::<(Seq<char>, V)>::empty());
            assert(all.skip(0) =~= all);
            assert(self.entries() =~= kept(all.take(0), names, keep_listed) + all.skip(0));
        }
        while i < self.entries.len()
            invariant
                self.wf(),
                all == old(self).entries(),
                names == listed@.map_values(|s: String| s@),
                0 <= seen <= all.len(),
                i == kept(all.take(seen), names, keep_listed).len(),
                self.entries() == kept(all.take(seen), names, keep_listed) + all.skip(seen),
                self.entries().len() == self.entries@.len(),
            decreases all.len() - seen,
        {
            let ghost current = self.entries();
            proof {
                assert(current[i as int] == all.skip(seen)[0]);
                assert(all.take(seen + 1).drop_last() =~= all.take(seen));
                assert(all.take(seen + 1).last() == all[seen]);
                assert(self.names()[i as int] == all[seen].0);
            }
            let is_listed = list_contains(listed, self.entries[i].0.as_str());
            if is_listed == keep_listed {
                proof {
                    assert(current =~= kept(all.take(seen + 1), names, keep_listed) + all.skip(
                        seen + 1,
                    ));
                }
                i += 1;
            } else {
                self.remove_at(i);
                proof {
                    assert(self.entries() =~= kept(all.take(seen + 1), names, keep_listed)
                        + all.skip(seen + 1));
                }
            }
            proof {
                seen = seen + 1;
            }
        }
        proof {
            assert(all.skip(seen).len() == 0);
            assert(all.take(seen) =~= all);
            assert(self.entries() =~= kept(all, names, keep_listed));
        }
    }
}

/// Taking one element out of a sequence without repeats leaves no repeats.
pub proof fn lemma_remove_keeps_no_duplicates<A>(s: Seq<A>, i: int)
    requires
        s.no_duplicates(),
        0 <= i < s.len(),
    ensures
        s.remove(i).no_duplicates(),
        !s.remove(i).contains(s[i]),
{
    let r = s.remove(i);
    assert forall|a: int, b: int| 0 <= a < r.len() && 0 <= b < r.len() && a != b implies r[a]
        != r[b] by {
        let a0 = if a < i { a } else { a + 1 };
        let b0 = if b < i { b } else { b + 1 };
        assert(r[a] == s[a0]);
        assert(r[b] == s[b0]);
    }
    assert forall|a: int| 0 <= a < r.len() implies r[a] != s[i] by {
        let a0 = if a < i { a } else { a + 1 };
        assert(r[a] == s[a0]);
    }
}

proof fn lemma_update_view<V>(before: NameMap<V>, after: NameMap<V>, i: int, value: V)
    requires
        before.wf(),
        0 <= i < before.names().len(),
        after.names() == before.names(),
        after.values() == before.values().update(i, value),
    ensures
        after@ == before@.insert(before.names()[i], value),
{
    let key = before.names()[i];
    assert forall|k: Seq<char>| after@.dom().contains(k) == before@.insert(
        key,
        value,
    ).dom().contains(k) by {
        if k == key {
            assert(before.names().contains(key));
        }
    }
    assert forall|k: Seq<char>| after@.dom().contains(k) implies after@[k] == before@.insert(
        key,
        value,
    )[k] by {
        let j = before.names().index_of(k);
        assert(before.names()[j] == k);
    }
    assert(after@ =~= before@.insert(key, value));
}

proof fn lemma_push_view<V>(before: NameMap<V>, after: NameMap<V>, key: Seq<char>, value: V)
    requires
        before.wf(),
        !before.names().contains(key),
        after.names() == before.names().push(key),
        after.values() == before.values().push(value),
    ensures
        after@ == before@.insert(key, value),
        after.wf(),
{
    let n = before.names().len() as int;
    assert(after.names()[n] == key);
    assert forall|k: Seq<char>| after@.dom().contains(k) == before@.insert(
        key,
        value,
    ).dom().contains(k) by {
        if before.names().contains(k) {
            let j = before.names().index_of(k);
            assert(after.names()[j] == k);
        }
        if k == key {
            assert(after.names()[n] == k);
        }
    }
    assert forall|k: Seq<char>| after@.dom().contains(k) implies after@[k] == before@.insert(
        key,
        value,
    )[k] by {
        let j = after.names().index_of(k);
        assert(after.names()[j] == k);
        if k != key {
            assert(j < n);
            let j0 = before.names().index_of(k);
            assert(before.names().contains(k));
            assert(before.names()[j0] == k);
            assert(after.names()[j0] == k);
            assert(j0 == j);
        } else {
            assert(j == n);
        }
    }
    assert(after@ =~= before@.insert(key, value));
}

proof fn lemma_remove_view<V>(before: NameMap<V>, after: NameMap<V>, i: int)
    requires
        before.wf(),
        0 <= i < before.names().len(),
        after.names() == before.names().remove(i),
        after.values() == before.values().remove(i),
    ensures
        after@ == before@.remove(before.names()[i]),
        after.wf(),
{
    let key = before.names()[i];
    lemma_remove_keeps_no_duplicates(before.names(), i);
    assert forall|k: Seq<char>| after@.dom().contains(k) == before@.remove(key).dom().contains(
        k,
    ) by {
        if after.names().contains(k) {
            let j = after.names().index_of(k);
            assert(after.names()[j] == k);
            let j0 = if j < i { j } else { j + 1 };
            assert(before.names()[j0] == k);
        }
        if before.names().contains(k) && k != key {
            let j0 = before.names().index_of(k);
            assert(before.names()[j0] == k);
            let j = if j0 < i { j0 } else { j0 - 1 };
            assert(after.names()[j] == k);
        }
    }
    assert forall|k: Seq<char>| after@.dom().contains(k) implies after@[k] == before@.remove(
        key,
    )[k] by {
        let j = after.names().index_of(k);
        assert(after.names()[j] == k);
        let j0 = if j < i { j } else { j + 1 };
        assert(before.names()[j0] == k);
        let j1 = before.names().index_of(k);
        assert(before.names().contains(k));
        assert(before.names()[j1] == k);
        assert(j1 == j0);
    }
    assert(after@ =~= before@.remove(key));
}

} // verus!
