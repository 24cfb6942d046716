//! An insertion-ordered map from ids to values.
//!
//! The map is kept as a vector of `(id, value)` entries in which no id occurs
//! twice. Iteration follows insertion order, so everything computed from a map
//! is a function of the calls that built it.
//!
//! A hash map would not do here. It is walked in an order that differs from
//! one process to the next, while the lists that are made from these maps (the
//! peers of a replica set, the shards of a collection, the targets of an
//! operation) are stated entry by entry and have to come out the same on
//! every peer. The ids are also not all integers: points and the keys of
//! transfers are ids too.

use vstd::prelude::*;

verus! {

/// Ids that can be told apart at run time.
pub trait Id: Copy {
    /// Decides equality of two ids.
    fn same(&self, other: &Self) -> (b: bool)
        ensures
            b == (*self == *other),
    ;
}

impl Id for u64 {
    fn same(&self, other: &Self) -> (b: bool) {
        *self == *other
    }
}

impl Id for u32 {
    fn same(&self, other: &Self) -> (b: bool) {
        *self == *other
    }
}

/// True when no id occurs twice in `s`.
pub open spec fn distinct_ids<K, V>(s: Seq<(K, V)>) -> bool {
    forall|i: int, j: int| 0 <= i < j < s.len() ==> s[i].0 != s[j].0
}

/// Position of the first entry for `id` in `s`, or `s.len()` when there is none.
pub open spec fn position_of<K, V>(s: Seq<(K, V)>, id: K) -> int
    decreases s.len(),
{
    if s.len() == 0 {
        0
    } else if s[0].0 == id {
        0
    } else {
        1 + position_of(s.subrange(1, s.len() as int), id)
    }
}

/// `position_of` finds the first entry with the id, and only such an entry.
pub proof fn lemma_position_of<K, V>(s: Seq<(K, V)>, id: K)
    ensures
        0 <= position_of(s, id) <= s.len(),
        position_of(s, id) < s.len() ==> s[position_of(s, id)].0 == id,
        forall|i: int| 0 <= i < position_of(s, id) ==> s[i].0 != id,
    decreases s.len(),
{
    if s.len() != 0 && s[0].0 != id {
        let rest = s.subrange(1, s.len() as int);
        lemma_position_of(rest, id);
        assert forall|i: int| 0 <= i < position_of(s, id) implies s[i].0 != id by {
            if i > 0 {
                assert(rest[i - 1] == s[i]);
            }
        }
    }
}

/// The first position that holds `id` is where `position_of` points.
pub proof fn lemma_position_found<K, V>(s: Seq<(K, V)>, id: K, i: int)
    requires
        0 <= i < s.len(),
        s[i].0 == id,
        forall|j: int| 0 <= j < i ==> s[j].0 != id,
    ensures
        position_of(s, id) == i,
{
    lemma_position_of(s, id);
    let p = position_of(s, id);
    if p < i {
        assert(s[p].0 != id);
    }
}

/// Where no entry holds `id`, `position_of` is the length.
pub proof fn lemma_position_absent<K, V>(s: Seq<(K, V)>, id: K)
    requires
        forall|j: int| 0 <= j < s.len() ==> s[j].0 != id,
    ensures
        position_of(s, id) == s.len(),
{
    lemma_position_of(s, id);
    let p = position_of(s, id);
    if p < s.len() {
        assert(s[p].0 != id);
    }
}

/// With distinct ids, an entry's id is found at the entry's own position.
pub proof fn lemma_position_of_entry<K, V>(s: Seq<(K, V)>, i: int)
    requires
        0 <= i < s.len(),
        distinct_ids(s),
    ensures
        position_of(s, s[i].0) == i,
{
    lemma_position_found(s, s[i].0, i);
}

/// The map that a sequence of entries with distinct ids stands for.
pub open spec fn entries_map<K, V>(s: Seq<(K, V)>) -> Map<K, V> {
    Map::new(
        |id: K| position_of(s, id) < s.len(),
        |id: K| s[position_of(s, id)].1,
    )
}

/// Appending an entry with a fresh id inserts it into the map.
pub proof fn lemma_push_entry<K, V>(s: Seq<(K, V)>, id: K, v: V)
    requires
        distinct_ids(s),
        position_of(s, id) == s.len(),
    ensures
        distinct_ids(s.push((id, v))),
        position_of(s.push((id, v)), id) == s.len(),
        entries_map(s.push((id, v))) == entries_map(s).insert(id, v),
{
    let t = s.push((id, v));
    lemma_position_of(s, id);
    assert(forall|j: int| 0 <= j < s.len() ==> t[j] == s[j]);
    lemma_position_found(t, id, s.len() as int);
    assert forall|k: K| k != id implies #[trigger] position_of(t, k) == (if position_of(s, k)
        < s.len() {
        position_of(s, k)
    } else {
        t.len() as int
    }) by {
        lemma_position_of(s, k);
        let q = position_of(s, k);
        if q < s.len() {
            lemma_position_found(t, k, q);
        } else {
            lemma_position_absent(t, k);
        }
    }
    assert forall|k: K|
        entries_map(t).dom().contains(k) == entries_map(s).insert(id, v).dom().contains(k) && (
        entries_map(t).dom().contains(k) ==> entries_map(t)[k] == entries_map(s).insert(id, v)[k]) by {
        if k != id {
            lemma_position_of(s, k);
            assert(position_of(t, k) == (if position_of(s, k) < s.len() {
                position_of(s, k)
            } else {
                t.len() as int
            }));
            if position_of(s, k) < s.len() {
                assert(t[position_of(s, k)] == s[position_of(s, k)]);
            }
        }
    }
    assert(entries_map(t) =~= entries_map(s).insert(id, v));
}

/// Replacing the value of an entry updates the map at its id.
pub proof fn lemma_update_entry<K, V>(s: Seq<(K, V)>, i: int, v: V)
    requires
        distinct_ids(s),
        0 <= i < s.len(),
    ensures
        distinct_ids(s.update(i, (s[i].0, v))),
        entries_map(s.update(i, (s[i].0, v))) == entries_map(s).insert(s[i].0, v),
        forall|k: K| #[trigger] position_of(s.update(i, (s[i].0, v)), k) == position_of(s, k),
        position_of(s, s[i].0) == i,
{
    let t = s.update(i, (s[i].0, v));
    assert(forall|j: int| 0 <= j < s.len() ==> (#[trigger] t[j]).0 == s[j].0);
    assert forall|k: K| #[trigger] position_of(t, k) == position_of(s, k) by {
        lemma_position_of(s, k);
        let q = position_of(s, k);
        if q < s.len() {
            lemma_position_found(t, k, q);
        } else {
            lemma_position_absent(t, k);
        }
    }
    lemma_position_of_entry(s, i);
    assert forall|k: K|
        entries_map(t).dom().contains(k) == entries_map(s).insert(s[i].0, v).dom().contains(k)
            && (entries_map(t).dom().contains(k) ==> entries_map(t)[k] == entries_map(s).insert(
            s[i].0,
            v,
        )[k]) by {
        assert(position_of(t, k) == position_of(s, k));
        lemma_position_of(s, k);
    }
    assert(entries_map(t) =~= entries_map(s).insert(s[i].0, v));
}

/// Removing an entry removes its id from the map.
pub proof fn lemma_remove_entry<K, V>(s: Seq<(K, V)>, i: int)
    requires
        distinct_ids(s),
        0 <= i < s.len(),
    ensures
        distinct_ids(s.remove(i)),
        entries_map(s.remove(i)) == entries_map(s).remove(s[i].0),
        position_of(s.remove(i), s[i].0) == s.remove(i).len(),
{
    let t = s.remove(i);
    let id = s[i].0;
    assert(forall|j: int| 0 <= j < i ==> #[trigger] t[j] == s[j]);
    assert(forall|j: int| i <= j < t.len() ==> #[trigger] t[j] == s[j + 1]);
    lemma_position_absent(t, id);
    assert forall|k: K| k != id implies #[trigger] position_of(t, k) == (if position_of(s, k)
        < i {
        position_of(s, k)
    } else {
        position_of(s, k) - 1
    }) by {
        lemma_position_of(s, k);
        let q = position_of(s, k);
        if q < i {
            lemma_position_found(t, k, q);
        } else if q < s.len() {
            lemma_position_found(t, k, q - 1);
        } else {
            lemma_position_absent(t, k);
        }
    }
    lemma_position_of_entry(s, i);
    assert forall|k: K|
        entries_map(t).dom().contains(k) == entries_map(s).remove(id).dom().contains(k) && (
        entries_map(t).dom().contains(k) ==> entries_map(t)[k] == entries_map(s).remove(id)[k]) by {
        if k != id {
            lemma_position_of(s, k);
            assert(position_of(t, k) == (if position_of(s, k) < i {
                position_of(s, k)
            } else {
                position_of(s, k) - 1
            }));
        }
    }
    assert(entries_map(t) =~= entries_map(s).remove(id));
}

/// Map from ids to values, ordered by first insertion.
pub struct IdMap<K, V> {
    entries: Vec<(K, V)>,
}

impl<K: Id, V> IdMap<K, V> {
    /// The entries in insertion order.
    pub closed spec fn entries(&self) -> Seq<(K, V)> {
        self.entries@
    }

    /// No id occurs twice.
    pub open spec fn wf(&self) -> bool {
        distinct_ids(self.entries())
    }

    /// True when the map has an entry for `id`.
    pub open spec fn has(&self, id: K) -> bool {
        position_of(self.entries(), id) < self.entries().len()
    }

    /// The value stored for `id`; meaningful when `has(id)`.
    pub open spec fn value(&self, id: K) -> V {
        self.entries()[position_of(self.entries(), id)].1
    }

    /// The map as a mathematical map.
    pub open spec fn view(&self) -> Map<K, V> {
        entries_map(self.entries())
    }

    /// An empty map.
    pub fn new() -> (m: Self)
        ensures
            m.wf(),
            m.entries() == Seq::<(K, V)>::empty(),
    {
        IdMap { entries: Vec::new() }
    }

    /// Number of entries.
    pub fn len(&self) -> (n: usize)
        ensures
            n == self.entries().len(),
    {
        self.entries.len()
    }

    /// True when the map has no entry.
    pub fn is_empty(&self) -> (b: bool)
        ensures
            b == (self.entries().len() == 0),
    {
        self.entries.len() == 0
    }

    /// Index of the entry for `id`, if there is one.
    pub fn find(&self, id: K) -> (r: Option<usize>)
        ensures
            match r {
                Some(i) => i == position_of(self.entries(), id) && self.has(id)
                    && self.entries()[i as int].0 == id,
                None => !self.has(id),
            },
    {
        let mut i: usize = 0;
        while i < self.entries.len()
            invariant
                i <= self.entries.len(),
                forall|j: int| 0 <= j < i ==> self.entries@[j].0 != id,
            decreases self.entries.len() - i,
        {
            if self.entries[i].0.same(&id) {
                proof {
                    lemma_position_of(self.entries@, id);
                }
                return Some(i);
            }
            i += 1;
        }
        proof {
            lemma_position_of(self.entries@, id);
        }
        None
    }

    /// True when the map has an entry for `id`.
    pub fn contains(&self, id: K) -> (b: bool)
        ensures
            b == self.has(id),
    {
        self.find(id).is_some()
    }

    /// The value stored for `id`.
    pub fn get(&self, id: K) -> (r: Option<&V>)
        ensures
            match r {
                Some(v) => self.has(id) && *v == self.value(id),
                None => !self.has(id),
            },
    {
        match self.find(id) {
            Some(i) => Some(&self.entries[i].1),
            None => None,
        }
    }

    /// The id at position `i` of the insertion order.
    pub fn id_at(&self, i: usize) -> (id: K)
        requires
            i < self.entries().len(),
        ensures
            id == self.entries()[i as int].0,
    {
        self.entries[i].0
    }

    /// The value at position `i` of the insertion order.
    pub fn value_at(&self, i: usize) -> (v: &V)
        requires
            i < self.entries().len(),
        ensures
            *v == self.entries()[i as int].1,
    {
        &self.entries[i].1
    }

    /// Mutable access to the value at position `i`; the id stays.
    pub fn value_at_mut(&mut self, i: usize) -> (v: &mut V)
        requires
            i < old(self).entries().len(),
        ensures
            *v == old(self).entries()[i as int].1,
            final(self).entries() == old(self).entries().update(
                i as int,
                (old(self).entries()[i as int].0, *final(v)),
            ),
    {
        &mut self.entries[i].1
    }

    /// Stores `value` under `id`. An existing entry keeps its place and hands
    /// back its old value; a new entry goes to the end.
    pub fn insert(&mut self, id: K, value: V) -> (previous: Option<V>)
        requires
            old(self).wf(),
        ensures
            final(self).wf(),
            final(self)@ == old(self)@.insert(id, value),
            old(self).has(id) ==> previous == Some(old(self).value(id))
                && final(self).entries() == old(self).entries().update(
                position_of(old(self).entries(), id),
                (id, value),
            ),
            !old(self).has(id) ==> previous.is_none() && final(self).entries() == old(self).entries().push((id, value)),
    {
        match self.find(id) {
            Some(i) => {
                proof {
                    lemma_update_entry(self.entries@, i as int, value);
                }
                let mut swapped = value;
                core::mem::swap(&mut self.entries[i].1, &mut swapped);
                Some(swapped)
            },
            None => {
                proof {
                    lemma_position_of(self.entries@, id);
                    lemma_push_entry(self.entries@, id, value);
                }
                self.entries.push((id, value));
                None
            },
        }
    }

    /// Removes the entry for `id` and hands back its value. The other entries
    /// keep their order.
    pub fn remove(&mut self, id: K) -> (removed: Option<V>)
        requires
            old(self).wf(),
        ensures
            final(self).wf(),
            final(self)@ == old(self)@.remove(id),
            !final(self).has(id),
            old(self).has(id) ==> removed == Some(old(self).value(id))
                && final(self).entries() == old(self).entries().remove(
                position_of(old(self).entries(), id),
            ),
            !old(self).has(id) ==> removed.is_none() && final(self).entries() == old(self).entries(),
    {
        match self.find(id) {
            Some(i) => {
                proof {
                    lemma_remove_entry(self.entries@, i as int);
                }
                let entry = self.entries.remove(i);
                Some(entry.1)
            },
            None => {
                assert(old(self)@.remove(id) =~= old(self)@);
                None
            },
        }
    }
}

impl<K: Id, V> IdMap<K, V> {
    /// The entries, in insertion order.
    pub fn into_entries(self) -> (entries: Vec<(K, V)>)
        ensures
            entries@ == self.entries(),
    {
        self.entries
    }
}

impl<K: Id, V: Copy> IdMap<K, V> {
    /// A copy with the same entries in the same order.
    pub fn copy(&self) -> (m: Self)
        ensures
            m.entries() == self.entries(),
    {
        let mut entries: Vec<(K, V)> = Vec::new();
        let mut i: usize = 0;
        while i < self.entries.len()
            invariant
                i <= self.entries.len(),
                entries@ == self.entries@.subrange(0, i as int),
            decreases self.entries.len() - i,
        {
            let e = self.entries[i];
            entries.push(e);
            assert(entries@ == self.entries@.subrange(0, i + 1));
            i += 1;
        }
        assert(entries@ == self.entries@);
        IdMap { entries }
    }
}

impl<K: Id> IdMap<K, String> {
    /// The entries with their values as texts.
    pub open spec fn text_entries(&self) -> Seq<(K, Seq<char>)> {
        self.entries().map_values(|e: (K, String)| (e.0, e.1@))
    }

    /// A copy of the map: the same ids with the same texts, in the same
    /// order.
    pub fn copy_texts(&self) -> (m: Self)
        ensures
            m.text_entries() == self.text_entries(),
            self.wf() ==> m.wf(),
    {
        let mut entries: Vec<(K, String)> = Vec::new();
        let mut i: usize = 0;
        while i < self.entries.len()
            invariant
                i <= self.entries.len(),
                entries@.len() == i,
                forall|k: int|
                    0 <= k < i ==> (#[trigger] entries@[k]).0 == self.entries@[k].0 && entries@[k].1@
                        == self.entries@[k].1@,
            decreases self.entries.len() - i,
        {
            let id = self.entries[i].0;
            let text = self.entries[i].1.clone();
            entries.push((id, text));
            i += 1;
        }
        let m = IdMap { entries };
        assert(m.text_entries() =~= self.text_entries());
        m
    }
}

} // verus!
