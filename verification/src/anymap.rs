//! A bag that holds at most one value per type identity.

use std::any::TypeId;
use vstd::prelude::*;

verus! {

/// std's `TypeId`: the identity of a type, opaque here.
#[verifier::external_type_specification]
#[verifier::external_body]
pub struct ExTypeId(TypeId);

/// `TypeId`'s `==`: two type identities are equal exactly when they are the
/// same value.
#[verifier::external_body]
fn same_type(a: &TypeId, b: &TypeId) -> (r: bool)
    ensures
        r == (*a == *b),
{
    a == b
}

spec fn keys_of<V>(entries: Seq<(TypeId, V)>) -> Seq<TypeId> {
    Seq::new(entries.len(), |i: int| entries[i].0)
}

spec fn map_of<V>(entries: Seq<(TypeId, V)>) -> Map<TypeId, V> {
    Map::new(
        |key: TypeId| keys_of(entries).contains(key),
        |key: TypeId| entries[keys_of(entries).index_of(key)].1,
    )
}

proof fn lemma_key_position<V>(entries: Seq<(TypeId, V)>, i: int)
    requires
        keys_of(entries).no_duplicates(),
        0 <= i < entries.len(),
    ensures
        keys_of(entries).contains(entries[i].0),
        keys_of(entries).index_of(entries[i].0) == i,
        map_of(entries).contains_key(entries[i].0),
        map_of(entries)[entries[i].0] == entries[i].1,
{
    let keys = keys_of(entries);
    assert(keys[i] == entries[i].0);
    assert(keys.contains(entries[i].0));
    assert(keys[keys.index_of(entries[i].0)] == entries[i].0);
}

proof fn lemma_replace<V>(entries: Seq<(TypeId, V)>, i: int, value: V)
    requires
        keys_of(entries).no_duplicates(),
        0 <= i < entries.len(),
    ensures
        keys_of(entries.update(i, (entries[i].0, value))) == keys_of(entries),
        map_of(entries.update(i, (entries[i].0, value))) == map_of(entries).insert(entries[i].0, value),
{
    let after = entries.update(i, (entries[i].0, value));
    assert(keys_of(after) =~= keys_of(entries));
    lemma_key_position(entries, i);
    assert forall|key: TypeId| map_of(after).contains_key(key) implies #[trigger] map_of(after)[key]
        == map_of(entries).insert(entries[i].0, value)[key] by {
        let j = keys_of(after).index_of(key);
        assert(keys_of(after)[j] == key);
        lemma_key_position(entries, j);
    }
    assert(map_of(after) =~= map_of(entries).insert(entries[i].0, value));
}

proof fn lemma_append<V>(entries: Seq<(TypeId, V)>, key: TypeId, value: V)
    requires
        keys_of(entries).no_duplicates(),
        !keys_of(entries).contains(key),
    ensures
        keys_of(entries.push((key, value))).no_duplicates(),
        map_of(entries.push((key, value))) == map_of(entries).insert(key, value),
{
    let after = entries.push((key, value));
    assert(keys_of(after) =~= keys_of(entries).push(key));
    assert forall|a: int, b: int| 0 <= a < after.len() && 0 <= b < after.len() && a != b implies keys_of(
        after,
    )[a] != keys_of(after)[b] by {
        if a < entries.len() {
            assert(keys_of(entries).contains(keys_of(entries)[a]));
        }
        if b < entries.len() {
            assert(keys_of(entries).contains(keys_of(entries)[b]));
        }
    }
    assert(keys_of(after)[entries.len() as int] == key);
    assert forall|k: TypeId| #[trigger] map_of(after).contains_key(k) <==> map_of(entries).insert(
        key,
        value,
    ).contains_key(k) by {
        if keys_of(after).contains(k) {
            let j = keys_of(after).index_of(k);
            assert(keys_of(after)[j] == k);
            if j < entries.len() {
                assert(keys_of(entries)[j] == k);
            }
        }
        if keys_of(entries).contains(k) {
            let j = keys_of(entries).index_of(k);
            assert(keys_of(after)[j] == k);
        }
    }
    assert forall|k: TypeId| map_of(after).contains_key(k) implies #[trigger] map_of(after)[k] == map_of(
        entries,
    ).insert(key, value)[k] by {
        let j = keys_of(after).index_of(k);
        assert(keys_of(after)[j] == k);
        lemma_key_position(after, j);
        if j < entries.len() {
            lemma_key_position(entries, j);
        }
    }
    assert(map_of(after) =~= map_of(entries).insert(key, value));
}

proof fn lemma_delete<V>(entries: Seq<(TypeId, V)>, i: int)
    requires
        keys_of(entries).no_duplicates(),
        0 <= i < entries.len(),
    ensures
        keys_of(entries.remove(i)).no_duplicates(),
        map_of(entries.remove(i)) == map_of(entries).remove(entries[i].0),
{
    let after = entries.remove(i);
    let key = entries[i].0;
    assert(keys_of(after) =~= keys_of(entries).remove(i));
    assert(keys_of(entries)[i] == key);
    assert forall|a: int, b: int| 0 <= a < after.len() && 0 <= b < after.len() && a != b implies keys_of(
        after,
    )[a] != keys_of(after)[b] by {
        let a0 = if a < i { a } else { a + 1 };
        let b0 = if b < i { b } else { b + 1 };
        assert(keys_of(after)[a] == keys_of(entries)[a0]);
        assert(keys_of(after)[b] == keys_of(entries)[b0]);
    }
    assert forall|k: TypeId| #[trigger] map_of(after).contains_key(k) <==> map_of(entries).remove(
        key,
    ).contains_key(k) by {
        if keys_of(after).contains(k) {
            let j = keys_of(after).index_of(k);
            assert(keys_of(after)[j] == k);
            let j0 = if j < i { j } else { j + 1 };
            assert(keys_of(entries)[j0] == k);
            assert(keys_of(entries).contains(k));
            assert(k != key);
        }
        if keys_of(entries).contains(k) && k != key {
            let j = keys_of(entries).index_of(k);
            assert(keys_of(entries)[j] == k);
            let j1 = if j < i { j } else { j - 1 };
            assert(keys_of(after)[j1] == k);
            assert(keys_of(after).contains(k));
        }
    }
    assert forall|k: TypeId| map_of(after).contains_key(k) implies #[trigger] map_of(after)[k] == map_of(
        entries,
    ).remove(key)[k] by {
        let j = keys_of(after).index_of(k);
        assert(keys_of(after)[j] == k);
        lemma_key_position(after, j);
        let j0 = if j < i { j } else { j + 1 };
        lemma_key_position(entries, j0);
    }
    assert(map_of(after) =~= map_of(entries).remove(key));
}

/// A map from type identities to values, one value per type.
pub struct AnyMap<V> {
    data: Vec<(TypeId, V)>,
}

impl<V> View for AnyMap<V> {
    type V = Map<TypeId, V>;

    /// The value held for each type.
    closed spec fn view(&self) -> Map<TypeId, V> {
        map_of(self.data@)
    }
}

impl<V> Default for AnyMap<V> {
    /// The empty map.
    fn default() -> (map: Self)
        ensures
            map.wf(),
            map@ == Map::<TypeId, V>::empty(),
            map.entries().len() == 0,
    {
        AnyMap::new()
    }
}

impl<V> AnyMap<V> {
    /// The entries in the order in which their types were first inserted.
    pub closed spec fn entries(&self) -> Seq<(TypeId, V)> {
        self.data@
    }

    /// No type occurs twice.
    pub closed spec fn wf(&self) -> bool {
        keys_of(self.data@).no_duplicates()
    }

    /// Every entry is the value that the map holds for its type.
    pub proof fn lemma_entries_in_view(&self, i: int)
        requires
            self.wf(),
            0 <= i < self.entries().len(),
        ensures
            self@.contains_key(self.entries()[i].0),
            self@[self.entries()[i].0] == self.entries()[i].1,
    {
        lemma_key_position(self.data@, i);
    }

    pub fn new() -> (map: Self)
        ensures
            map.wf(),
            map@ == Map::<TypeId, V>::empty(),
            map.entries().len() == 0,
    {
        let map = AnyMap { data: Vec::new() };
        assert(map@ =~= Map::<TypeId, V>::empty());
        map
    }

    fn index_of(&self, key: &TypeId) -> (found: Option<usize>)
        ensures
            match found {
                Some(i) => i < self.data@.len() && self.data@[i as int].0 == *key,
                None => !keys_of(self.data@).contains(*key),
            },
    {
        let mut i: usize = 0;
        while i < self.data.len()
            invariant
                i <= self.data@.len(),
                forall|j: int| 0 <= j < i ==> keys_of(self.data@)[j] != *key,
            decreases self.data@.len() - i,
        {
            if same_type(&self.data[i].0, key) {
                return Some(i);
            }
            i += 1;
        }
        None
    }

    /// The value stored for the type `key`, if there is one.
    pub fn find(&self, key: TypeId) -> (found: Option<&V>)
        requires
            self.wf(),
        ensures
            match found {
                Some(value) => self@.contains_key(key) && *value == self@[key],
                None => !self@.contains_key(key),
            },
    {
        match self.index_of(&key) {
            Some(i) => {
                proof {
                    lemma_key_position(self.data@, i as int);
                }
                Some(&self.data[i].1)
            },
            None => None,
        }
    }

    /// A mutable borrow of the value stored for the type `key`, if there is
    /// one. What the borrower leaves there is what the map then holds.
    pub fn find_mut(&mut self, key: TypeId) -> (found: Option<&mut V>)
        requires
            old(self).wf(),
        ensures
            final(self).wf(),
            match found {
                Some(value) => old(self)@.contains_key(key) && *value == old(self)@[key] && final(self)@ == old(
                    self,
                )@.insert(key, *final(value)),
                None => !old(self)@.contains_key(key) && final(self)@ == old(self)@,
            },
    {
        match self.index_of(&key) {
            Some(i) => {
                let ghost before = self.data@;
                proof {
                    lemma_key_position(before, i as int);
                    assert forall|v: V|
                        keys_of(#[trigger] before.update(i as int, (before[i as int].0, v))) == keys_of(before)
                            && map_of(before.update(i as int, (before[i as int].0, v))) == map_of(
                            before,
                        ).insert(key, v) by {
                        lemma_replace(before, i as int, v);
                    }
                }
                Some(&mut self.data[i].1)
            },
            None => None,
        }
    }

    /// Stores `value` for the type `key`, in place of any value stored for it.
    pub fn insert(&mut self, key: TypeId, value: V)
        requires
            old(self).wf(),
        ensures
            final(self).wf(),
            final(self)@ == old(self)@.insert(key, value),
    {
        match self.index_of(&key) {
            Some(i) => {
                proof {
                    lemma_replace(self.data@, i as int, value);
                }
                self.data.set(i, (key, value));
            },
            None => {
                proof {
                    lemma_append(self.data@, key, value);
                }
                self.data.push((key, value));
            },
        }
    }

    /// Removes the value stored for the type `key`, if there is one.
    pub fn remove(&mut self, key: TypeId)
        requires
            old(self).wf(),
        ensures
            final(self).wf(),
            final(self)@ == old(self)@.remove(key),
    {
        match self.index_of(&key) {
            Some(i) => {
                proof {
                    lemma_delete(self.data@, i as int);
                }
                let _ = self.data.remove(i);
            },
            None => {
                assert(self@.remove(key) =~= self@);
            },
        }
    }

    /// A walk over the entries, from the first inserted on.
    pub fn iter(&self) -> (walk: AnyMapIter<'_, V>)
        ensures
            walk.map() == *self,
            walk.position() == 0,
    {
        AnyMapIter { map: self, next: 0 }
    }
}

/// A walk over the entries of an [`AnyMap`].
pub struct AnyMapIter<'a, V> {
    map: &'a AnyMap<V>,
    next: usize,
}

impl<'a, V> AnyMapIter<'a, V> {
    /// The map that is walked.
    pub closed spec fn map(&self) -> AnyMap<V> {
        *self.map
    }

    /// How many entries the walk has handed out.
    pub closed spec fn position(&self) -> nat {
        self.next as nat
    }

    /// The next entry in insertion order, or `None` once all were handed out.
    pub fn next(&mut self) -> (item: Option<(&'a TypeId, &'a V)>)
        ensures
            final(self).map() == old(self).map(),
            match item {
                Some((key, value)) => old(self).position() < old(self).map().entries().len() && (*key, *value)
                    == old(self).map().entries()[old(self).position() as int] && final(self).position()
                    == old(self).position() + 1,
                None => old(self).position() >= old(self).map().entries().len() && final(self).position()
                    == old(self).position(),
            },
    {
        if self.next < self.map.data.len() {
            let entry = &self.map.data[self.next];
            self.next = self.next + 1;
            Some((&entry.0, &entry.1))
        } else {
            None
        }
    }
}

} // verus!
