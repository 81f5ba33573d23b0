//! An insertion-ordered table keyed by text.
//!
//! Every name-keyed collection of the store is a [`NameTable`]: lookups are by
//! the characters of the name, and the order in which names were first added
//! is the order in which they are walked.

use vstd::prelude::*;

verus! {

/// The characters of each string of a sequence.
pub open spec fn texts(items: Seq<String>) -> Seq<Seq<char>> {
    Seq::new(items.len(), |i: int| items[i]@)
}

/// Compares two strings by their characters.
pub fn same_text(a: &String, b: &String) -> (r: bool)
    ensures
        r == (a@ == b@),
{
    *a == *b
}

/// Whether `list` holds `item`.
pub fn contains_text(list: &Vec<String>, item: &String) -> (found: bool)
    ensures
        found == texts(list@).contains(item@),
{
    let mut k: usize = 0;
    while k < list.len()
        invariant
            k <= list@.len(),
            forall|j: int| 0 <= j < k ==> texts(list@)[j] != item@,
        decreases list@.len() - k,
    {
        if same_text(&list[k], item) {
            assert(texts(list@)[k as int] == item@);
            return true;
        }
        k += 1;
    }
    false
}

/// How often `text` occurs in `items`.
pub open spec fn count_of(items: Seq<Seq<char>>, text: Seq<char>) -> nat
    decreases items.len(),
{
    if items.len() == 0 {
        0
    } else {
        count_of(items.drop_last(), text) + if items.last() == text {
            1nat
        } else {
            0nat
        }
    }
}

/// A text occurs in two lists laid end to end as often as in both together.
pub proof fn lemma_count_of_concat(front: Seq<Seq<char>>, back: Seq<Seq<char>>, text: Seq<char>)
    ensures
        count_of(front + back, text) == count_of(front, text) + count_of(back, text),
    decreases back.len(),
{
    if back.len() == 0 {
        assert(front + back =~= front);
    } else {
        assert((front + back).drop_last() =~= front + back.drop_last());
        assert((front + back).last() == back.last());
        lemma_count_of_concat(front, back.drop_last(), text);
    }
}

/// In a list that holds nothing but `text`, it occurs as often as the list is
/// long; in a list that does not hold it, never.
pub proof fn lemma_count_of_uniform(items: Seq<Seq<char>>, label: Seq<char>, text: Seq<char>)
    requires
        forall|k: int| 0 <= k < items.len() ==> items[k] == label,
    ensures
        label == text ==> count_of(items, text) == items.len(),
        label != text ==> count_of(items, text) == 0,
    decreases items.len(),
{
    if items.len() > 0 {
        lemma_count_of_uniform(items.drop_last(), label, text);
    }
}

/// `items` with each text once, where it first occurs.
pub open spec fn first_occurrences(items: Seq<Seq<char>>) -> Seq<Seq<char>>
    decreases items.len(),
{
    if items.len() == 0 {
        Seq::empty()
    } else {
        let rest = first_occurrences(items.drop_last());
        if rest.contains(items.last()) {
            rest
        } else {
            rest.push(items.last())
        }
    }
}

/// `first_occurrences` gives the texts of `items` as a set: each of them, and
/// nothing else, once.
pub proof fn lemma_first_occurrences(items: Seq<Seq<char>>)
    ensures
        first_occurrences(items).no_duplicates(),
        forall|text: Seq<char>| #[trigger] first_occurrences(items).contains(text) <==> items.contains(text),
    decreases items.len(),
{
    if items.len() > 0 {
        let front = items.drop_last();
        let rest = first_occurrences(front);
        let all = first_occurrences(items);
        lemma_first_occurrences(front);
        assert forall|text: Seq<char>| #[trigger] all.contains(text) <==> items.contains(text) by {
            if all.contains(text) {
                let i = choose|i: int| 0 <= i < all.len() && all[i] == text;
                if i < rest.len() {
                    assert(rest[i] == text);
                    assert(rest.contains(text));
                    assert(front.contains(text));
                    let j = choose|j: int| 0 <= j < front.len() && front[j] == text;
                    assert(items[j] == text);
                } else {
                    assert(items[items.len() - 1] == text);
                }
            }
            if items.contains(text) {
                let j = choose|j: int| 0 <= j < items.len() && items[j] == text;
                if j < front.len() {
                    assert(front[j] == text);
                    assert(front.contains(text));
                    assert(rest.contains(text));
                    let i = choose|i: int| 0 <= i < rest.len() && rest[i] == text;
                    assert(all[i] == text);
                } else if !rest.contains(text) {
                    assert(all[rest.len() as int] == text);
                } else {
                    let i = choose|i: int| 0 <= i < rest.len() && rest[i] == text;
                    assert(all[i] == text);
                }
            }
        }
        if !rest.contains(items.last()) {
            assert forall|a: int, b: int| 0 <= a < all.len() && 0 <= b < all.len() && a != b implies all[a]
                != all[b] by {
                if a < rest.len() {
                    assert(rest.contains(rest[a]));
                }
                if b < rest.len() {
                    assert(rest.contains(rest[b]));
                }
            }
        }
    }
}

spec fn names_of<V>(entries: Seq<(String, V)>) -> Seq<Seq<char>> {
    Seq::new(entries.len(), |i: int| entries[i].0@)
}

spec fn values_of<V>(entries: Seq<(String, V)>) -> Seq<V> {
    Seq::new(entries.len(), |i: int| entries[i].1)
}

/// A map from names to values that remembers insertion order.
#[derive(Debug, Clone, PartialEq)]
pub struct NameTable<V> {
    entries: Vec<(String, V)>,
}

impl<V> NameTable<V> {
    /// The names, in insertion order.
    pub closed spec fn names(&self) -> Seq<Seq<char>> {
        names_of(self.entries@)
    }

    /// The values, in the order of their names.
    pub closed spec fn values(&self) -> Seq<V> {
        values_of(self.entries@)
    }

    /// No name occurs twice, and each name has one value.
    pub open spec fn wf(&self) -> bool {
        &&& self.names().no_duplicates()
        &&& self.names().len() == self.values().len()
    }

    /// Where `name` stands in the table, if it does.
    pub open spec fn position(&self, name: Seq<char>) -> Option<int> {
        if self.names().contains(name) {
            Some(self.names().index_of(name))
        } else {
            None
        }
    }

    /// In a well-formed table a name stands at exactly one position.
    pub proof fn lemma_position_unique(&self, i: int)
        requires
            self.wf(),
            0 <= i < self.names().len(),
        ensures
            self.position(self.names()[i]) == Some(i),
    {
        let name = self.names()[i];
        assert(self.names().contains(name));
        let j = self.names().index_of(name);
        assert(self.names()[j] == name);
    }

    /// A position is within the table, and the name stands there.
    pub proof fn lemma_position_holds(&self, name: Seq<char>)
        ensures
            match self.position(name) {
                Some(i) => 0 <= i < self.names().len() && self.names()[i] == name,
                None => !self.names().contains(name),
            },
    {
        if self.names().contains(name) {
            assert(self.names()[self.names().index_of(name)] == name);
        }
    }

    /// A name other than the one that was set or appended stands where it
    /// stood, with the value it had.
    pub proof fn lemma_position_elsewhere(&self, before: Self, other: Seq<char>)
        requires
            self.wf(),
            before.wf(),
            before.names().len() <= self.names().len(),
            forall|i: int| 0 <= i < before.names().len() ==> self.names()[i] == before.names()[i],
            forall|i: int| before.names().len() <= i < self.names().len() ==> self.names()[i] != other,
        ensures
            self.position(other) == before.position(other),
    {
        if before.names().contains(other) {
            let i = before.names().index_of(other);
            assert(before.names()[i] == other);
            assert(self.names()[i] == other);
            before.lemma_position_unique(i);
            self.lemma_position_unique(i);
        } else if self.names().contains(other) {
            let i = self.names().index_of(other);
            assert(self.names()[i] == other);
            assert(before.names()[i] == other);
        }
    }

    pub fn new() -> (table: Self)
        ensures
            table.wf(),
            table.names() == Seq::<Seq<char>>::empty(),
            table.values() == Seq::<V>::empty(),
    {
        let table = NameTable { entries: Vec::new() };
        assert(table.names() =~= Seq::<Seq<char>>::empty());
        assert(table.values() =~= Seq::<V>::empty());
        table
    }

    pub fn len(&self) -> (n: usize)
        ensures
            n == self.names().len(),
            n == self.values().len(),
    {
        self.entries.len()
    }

    /// The position of `name`, found by a linear search from the front.
    pub fn find(&self, name: &String) -> (found: Option<usize>)
        ensures
            match found {
                Some(i) => i < self.names().len() && self.names()[i as int] == name@
                    && (self.wf() ==> self.position(name@) == Some(i as int)),
                None => !self.names().contains(name@) && self.position(name@).is_none(),
            },
    {
        let mut i: usize = 0;
        while i < self.entries.len()
            invariant
                i <= self.entries@.len(),
                forall|j: int| 0 <= j < i ==> self.names()[j] != name@,
            decreases self.entries@.len() - i,
        {
            if same_text(&self.entries[i].0, name) {
                proof {
                    if self.wf() {
                        self.lemma_position_unique(i as int);
                    }
                }
                return Some(i);
            }
            i += 1;
        }
        None
    }

    /// A copy of the names, in insertion order.
    pub fn name_list(&self) -> (names: Vec<String>)
        ensures
            texts(names@) == self.names(),
    {
        let mut names: Vec<String> = Vec::new();
        let mut i: usize = 0;
        while i < self.entries.len()
            invariant
                i <= self.entries@.len(),
                names@.len() == i,
                forall|j: int| 0 <= j < i ==> (#[trigger] names@[j])@ == self.names()[j],
            decreases self.entries@.len() - i,
        {
            names.push(self.entries[i].0.clone());
            i += 1;
        }
        assert(texts(names@) =~= self.names());
        names
    }

    pub fn name_at(&self, i: usize) -> (name: &String)
        requires
            i < self.names().len(),
        ensures
            name@ == self.names()[i as int],
    {
        &self.entries[i].0
    }

    pub fn value_at(&self, i: usize) -> (value: &V)
        requires
            i < self.values().len(),
        ensures
            *value == self.values()[i as int],
    {
        &self.entries[i].1
    }

    /// A mutable borrow of the value at position `i`; the names stay as they are.
    pub fn value_at_mut(&mut self, i: usize) -> (value: &mut V)
        requires
            i < old(self).values().len(),
        ensures
            *value == old(self).values()[i as int],
            final(self).names() == old(self).names(),
            final(self).values() == old(self).values().update(i as int, *final(value)),
    {
        let ghost before = self.entries@;
        proof {
            assert forall|v: V|
                names_of(#[trigger] before.update(i as int, (before[i as int].0, v)))
                    == names_of(before) && values_of(
                    before.update(i as int, (before[i as int].0, v)),
                ) == values_of(before).update(i as int, v) by {
                let after = before.update(i as int, (before[i as int].0, v));
                assert(names_of(after) =~= names_of(before));
                assert(values_of(after) =~= values_of(before).update(i as int, v));
            }
        }
        let slot = &mut self.entries[i].1;
        slot
    }

    /// Puts `value` in place of the value at position `i`.
    pub fn set_value(&mut self, i: usize, value: V)
        requires
            old(self).wf(),
            i < old(self).values().len(),
        ensures
            final(self).wf(),
            final(self).names() == old(self).names(),
            final(self).values() == old(self).values().update(i as int, value),
    {
        let slot = self.value_at_mut(i);
        *slot = value;
    }

    /// Appends a name that the table does not hold yet.
    pub fn push(&mut self, name: String, value: V)
        requires
            old(self).wf(),
            !old(self).names().contains(name@),
        ensures
            final(self).wf(),
            final(self).names() == old(self).names().push(name@),
            final(self).values() == old(self).values().push(value),
    {
        self.entries.push((name, value));
        proof {
            assert(self.names() =~= old(self).names().push(name@));
            assert(self.values() =~= old(self).values().push(value));
            assert forall|a: int, b: int|
                0 <= a < self.names().len() && 0 <= b < self.names().len() && a != b
                implies self.names()[a] != self.names()[b] by {
                if a < old(self).names().len() {
                    assert(old(self).names().contains(old(self).names()[a]));
                }
                if b < old(self).names().len() {
                    assert(old(self).names().contains(old(self).names()[b]));
                }
            }
        }
    }

    /// Sets the value of `name`: in place where the table holds the name,
    /// else as a new last entry. Returns the entry's position.
    pub fn insert(&mut self, name: String, value: V) -> (i: usize)
        requires
            old(self).wf(),
        ensures
            final(self).wf(),
            final(self).position(name@) == Some(i as int),
            final(self).values()[i as int] == value,
            match old(self).position(name@) {
                Some(at) => at == i && final(self).names() == old(self).names() && final(self).values() == old(
                    self,
                ).values().update(at, value),
                None => i == old(self).names().len() && final(self).names() == old(self).names().push(name@)
                    && final(self).values() == old(self).values().push(value),
            },
    {
        match self.find(&name) {
            Some(i) => {
                let slot = self.value_at_mut(i);
                *slot = value;
                i
            },
            None => {
                let i = self.entries.len();
                self.push(name, value);
                proof {
                    self.lemma_position_unique(i as int);
                }
                i
            },
        }
    }

    /// Removes the entry at position `i`; the entries behind it move up.
    pub fn remove_at(&mut self, i: usize) -> (removed: V)
        requires
            old(self).wf(),
            i < old(self).names().len(),
        ensures
            final(self).wf(),
            final(self).names() == old(self).names().remove(i as int),
            final(self).values() == old(self).values().remove(i as int),
            removed == old(self).values()[i as int],
    {
        let entry = self.entries.remove(i);
        proof {
            assert(self.names() =~= old(self).names().remove(i as int));
            assert(self.values() =~= old(self).values().remove(i as int));
        }
        entry.1
    }
}

} // verus!
