//! A table from texts to values, kept in slots.
//!
//! The slots hold the entries without gaps, so that all of them can be looked
//! at in turn; an index finds the slot of a key.

use vstd::hash_map::StringHashMap;
use vstd::prelude::*;

verus! {

/// The sum of the weights of values.
pub open spec fn total<T>(values: Seq<T>, weight: spec_fn(T) -> nat) -> nat
    decreases values.len(),
{
    if values.len() == 0 {
        0
    } else {
        total(values.drop_last(), weight) + weight(values.last())
    }
}

/// The slots after the last value is moved to the slot of a value that leaves.
pub open spec fn without<T>(values: Seq<T>, index: int) -> Seq<T> {
    values.update(index, values.last()).drop_last()
}

/// Replacing a value changes the sum by the difference of the two weights.
pub proof fn lemma_total_update<T>(values: Seq<T>, index: int, value: T, weight: spec_fn(T) -> nat)
    requires
        0 <= index < values.len(),
    ensures
        total(values.update(index, value), weight) + weight(values[index]) == total(values, weight)
            + weight(value),
    decreases values.len(),
{
    let after = values.update(index, value);
    if index == values.len() - 1 {
        assert(after.drop_last() =~= values.drop_last());
    } else {
        assert(after.drop_last() =~= values.drop_last().update(index, value));
        lemma_total_update(values.drop_last(), index, value, weight);
    }
}

/// A value that leaves takes its weight from the sum.
pub proof fn lemma_total_without<T>(values: Seq<T>, index: int, weight: spec_fn(T) -> nat)
    requires
        0 <= index < values.len(),
    ensures
        total(without(values, index), weight) + weight(values[index]) == total(values, weight),
{
    let moved = values.update(index, values.last());
    lemma_total_update(values, index, values.last(), weight);
    assert(moved.last() == values.last());
    assert(moved.drop_last() == without(values, index));
}

/// A value that joins adds its weight to the sum.
pub proof fn lemma_total_push<T>(values: Seq<T>, value: T, weight: spec_fn(T) -> nat)
    ensures
        total(values.push(value), weight) == total(values, weight) + weight(value),
{
    assert(values.push(value).drop_last() =~= values);
}

/// Every weight is part of the sum.
pub proof fn lemma_total_covers<T>(values: Seq<T>, index: int, weight: spec_fn(T) -> nat)
    requires
        0 <= index < values.len(),
    ensures
        weight(values[index]) <= total(values, weight),
    decreases values.len(),
{
    if index < values.len() - 1 {
        lemma_total_covers(values.drop_last(), index, weight);
    }
}

/// The sum of the weights of a map's values.
pub open spec fn map_total<V>(map: Map<Seq<char>, V>, weight: spec_fn(V) -> nat) -> nat
    recommends
        map.dom().finite(),
    decreases map.dom().len(),
    when map.dom().finite()
{
    if map.dom().len() == 0 {
        0
    } else {
        let key = map.dom().choose();
        map_total(map.remove(key), weight) + weight(map[key])
    }
}

/// A key that leaves takes its weight from the sum.
pub proof fn lemma_map_total_remove<V>(map: Map<Seq<char>, V>, key: Seq<char>, weight: spec_fn(V) -> nat)
    requires
        map.dom().finite(),
        map.contains_key(key),
    ensures
        map_total(map, weight) == map_total(map.remove(key), weight) + weight(map[key]),
    decreases map.dom().len(),
{
    let first = map.dom().choose();
    assert(map.dom().contains(first));
    if first != key {
        lemma_map_total_remove(map.remove(first), key, weight);
        lemma_map_total_remove(map.remove(key), first, weight);
        assert(map.remove(first).remove(key) =~= map.remove(key).remove(first));
    }
}

/// Values in a list and in a map that gives each of them another name have one sum.
proof fn lemma_named_total<T, V>(
    names: Seq<Seq<char>>,
    values: Seq<T>,
    map: Map<Seq<char>, V>,
    list_weight: spec_fn(T) -> nat,
    map_weight: spec_fn(V) -> nat,
)
    requires
        names.len() == values.len(),
        names.no_duplicates(),
        forall|key: Seq<char>| #[trigger] map.contains_key(key) <==> names.contains(key),
        forall|i: int|
            0 <= i < names.len() ==> map_weight(map[#[trigger] names[i]]) == list_weight(values[i]),
    ensures
        map.dom().finite(),
        map.dom().len() == values.len(),
        map_total(map, map_weight) == total(values, list_weight),
    decreases values.len(),
{
    if values.len() == 0 {
        assert(map.dom() =~= Set::empty());
    } else {
        let last = names.last();
        let rest = map.remove(last);
        let front = names.drop_last();
        assert(names[names.len() - 1] == last);
        assert forall|key: Seq<char>| #[trigger] rest.contains_key(key) <==> front.contains(key) by {
            if front.contains(key) {
                let i = front.index_of(key);
                assert(names[i] == key);
                assert(names.contains(key));
            }
            if rest.contains_key(key) {
                assert(map.contains_key(key));
                let i = names.index_of(key);
                assert(front[i] == key);
            }
        }
        assert forall|i: int| 0 <= i < front.len() implies map_weight(rest[#[trigger] front[i]])
            == list_weight(values.drop_last()[i]) by {
            assert(names[i] == front[i]);
        }
        lemma_named_total(front, values.drop_last(), rest, list_weight, map_weight);
        assert(map.dom() =~= rest.dom().insert(last));
        lemma_map_total_remove(map, last, map_weight);
        assert(map_weight(map[names[names.len() - 1]]) == list_weight(values.last()));
    }
}

/// A table from texts to values.
pub struct Table<T> {
    index: StringHashMap<usize>,
    keys: Vec<String>,
    values: Vec<T>,
}

impl<T> View for Table<T> {
    type V = Map<Seq<char>, T>;

    closed spec fn view(&self) -> Map<Seq<char>, T> {
        Map::new(
            |key: Seq<char>| self.index@.contains_key(key),
            |key: Seq<char>| self.values@[self.index@[key] as int],
        )
    }
}

impl<T> Table<T> {
    /// The values, slot by slot.
    pub closed spec fn slots(&self) -> Seq<T> {
        self.values@
    }

    /// The keys, slot by slot.
    pub closed spec fn names(&self) -> Seq<Seq<char>> {
        Seq::new(self.keys@.len(), |i: int| self.keys@[i]@)
    }

    /// The slot of a key.
    pub closed spec fn slot_of(&self, key: Seq<char>) -> int {
        self.index@[key] as int
    }

    /// The index and the slots agree.
    pub closed spec fn wf(&self) -> bool {
        &&& self.keys@.len() == self.values@.len()
        &&& forall|i: int|
            0 <= i < self.keys@.len() ==> self.index@.contains_key((#[trigger] self.keys@[i])@)
                && self.index@[self.keys@[i]@] == i
        &&& forall|key: Seq<char>| #[trigger]
            self.index@.contains_key(key) ==> self.index@[key] < self.keys@.len()
                && self.keys@[self.index@[key] as int]@ == key
    }

    /// How the map, the keys and the slots of a well-formed table belong
    /// together.
    pub proof fn lemma_slots(&self)
        requires
            self.wf(),
        ensures
            self.names().len() == self.slots().len(),
            forall|i: int|
                0 <= i < self.slots().len() ==> self@.contains_key(#[trigger] self.names()[i])
                    && self@[self.names()[i]] == self.slots()[i] && self.slot_of(self.names()[i]) == i,
            forall|key: Seq<char>| #[trigger]
                self@.contains_key(key) ==> 0 <= self.slot_of(key) < self.slots().len()
                    && self.names()[self.slot_of(key)] == key && self@[key] == self.slots()[self.slot_of(
                    key,
                )],
    {
        assert forall|i: int| 0 <= i < self.slots().len() implies self@.contains_key(
            #[trigger] self.names()[i],
        ) && self@[self.names()[i]] == self.slots()[i] && self.slot_of(self.names()[i]) == i by {
            assert(self.index@.contains_key(self.keys@[i]@));
        }
        assert forall|key: Seq<char>| #[trigger] self@.contains_key(key) implies 0 <= self.slot_of(key)
            < self.slots().len() && self.names()[self.slot_of(key)] == key && self@[key]
            == self.slots()[self.slot_of(key)] by {
            assert(self.index@.contains_key(key));
        }
    }

    /// The sum over the slots is the sum over the map, also where the map gives a view
    /// of the values.
    pub proof fn lemma_total<V>(
        &self,
        map: Map<Seq<char>, V>,
        slot_weight: spec_fn(T) -> nat,
        map_weight: spec_fn(V) -> nat,
    )
        requires
            self.wf(),
            map.dom() == self@.dom(),
            forall|key: Seq<char>| #[trigger]
                self@.contains_key(key) ==> map_weight(map[key]) == slot_weight(self@[key]),
        ensures
            map.dom().finite(),
            map.dom().len() == self.slots().len(),
            map_total(map, map_weight) == total(self.slots(), slot_weight),
    {
        self.lemma_slots();
        let names = self.names();
        assert forall|i: int, j: int| 0 <= i < names.len() && 0 <= j < names.len() && i != j implies names[i]
            != names[j] by {
            assert(self.slot_of(names[i]) == i);
            assert(self.slot_of(names[j]) == j);
        }
        assert forall|key: Seq<char>| #[trigger] map.contains_key(key) <==> names.contains(key) by {
            if map.contains_key(key) {
                assert(self@.dom().contains(key));
                assert(self@.contains_key(key));
                assert(names[self.slot_of(key)] == key);
            }
            if names.contains(key) {
                let i = names.index_of(key);
                assert(self@.contains_key(names[i]));
                assert(self@.dom().contains(key));
            }
        }
        assert forall|i: int| 0 <= i < names.len() implies map_weight(map[#[trigger] names[i]])
            == slot_weight(self.slots()[i]) by {
            assert(self@.contains_key(names[i]));
        }
        lemma_named_total(names, self.slots(), map, slot_weight, map_weight);
    }

    pub fn new() -> (table: Self)
        ensures
            table.wf(),
            table@ == Map::<Seq<char>, T>::empty(),
            table.slots() == Seq::<T>::empty(),
    {
        let table = Table { index: StringHashMap::new(), keys: Vec::new(), values: Vec::new() };
        assert(table@ =~= Map::<Seq<char>, T>::empty());
        table
    }

    pub fn len(&self) -> (count: usize)
        ensures
            count == self.slots().len(),
    {
        self.values.len()
    }

    /// The slot of a key, where the table has the key.
    pub fn find(&self, key: &str) -> (slot: Option<usize>)
        requires
            self.wf(),
        ensures
            match slot {
                Some(slot) => self@.contains_key(key@) && slot == self.slot_of(key@) && slot
                    < self.slots().len() && self.slots()[slot as int] == self@[key@],
                None => !self@.contains_key(key@),
            },
    {
        match self.index.get(key) {
            Some(slot) => Some(*slot),
            None => None,
        }
    }

    /// The value in a slot.
    pub fn value(&self, slot: usize) -> (value: &T)
        requires
            slot < self.slots().len(),
        ensures
            *value == self.slots()[slot as int],
    {
        &self.values[slot]
    }

    /// The key of a slot.
    pub fn key(&self, slot: usize) -> (key: &String)
        requires
            self.wf(),
            slot < self.slots().len(),
        ensures
            key@ == self.names()[slot as int],
    {
        &self.keys[slot]
    }

    /// The value of a key.
    pub fn get(&self, key: &str) -> (value: Option<&T>)
        requires
            self.wf(),
        ensures
            match value {
                Some(value) => self@.contains_key(key@) && *value == self@[key@],
                None => !self@.contains_key(key@),
            },
    {
        match self.find(key) {
            Some(slot) => Some(&self.values[slot]),
            None => None,
        }
    }

    /// Replaces the value in a slot.
    pub fn set(&mut self, slot: usize, value: T)
        requires
            old(self).wf(),
            slot < old(self).slots().len(),
        ensures
            final(self).wf(),
            final(self).slots() == old(self).slots().update(slot as int, value),
            final(self).names() == old(self).names(),
            final(self)@ == old(self)@.insert(old(self).names()[slot as int], value),
    {
        self.values[slot] = value;
        proof {
            let key = old(self).names()[slot as int];
            assert(old(self).index@.contains_key(old(self).keys@[slot as int]@));
            assert forall|other: Seq<char>| #[trigger] self@.contains_key(other) implies self@[other]
                == old(self)@.insert(key, value)[other] by {
                assert(self.index@.contains_key(other));
            }
            assert(self@ =~= old(self)@.insert(key, value));
        }
    }

    /// Replaces the value in a slot and hands the old one out.
    pub fn exchange(&mut self, slot: usize, value: T) -> (former: T)
        requires
            old(self).wf(),
            slot < old(self).slots().len(),
        ensures
            final(self).wf(),
            former == old(self).slots()[slot as int],
            final(self).slots() == old(self).slots().update(slot as int, value),
            final(self).names() == old(self).names(),
            final(self)@ == old(self)@.insert(old(self).names()[slot as int], value),
    {
        let mut other: T = value;
        std::mem::swap(&mut other, &mut self.values[slot]);
        proof {
            let key = old(self).names()[slot as int];
            assert(old(self).index@.contains_key(old(self).keys@[slot as int]@));
            assert forall|other: Seq<char>| #[trigger] self@.contains_key(other) implies self@[other]
                == old(self)@.insert(key, value)[other] by {
                assert(self.index@.contains_key(other));
            }
            assert(self@ =~= old(self)@.insert(key, value));
        }
        other
    }

    /// Gives a key a value. A new key gets a slot at the end.
    pub fn insert(&mut self, key: String, value: T)
        requires
            old(self).wf(),
        ensures
            final(self).wf(),
            final(self)@ == old(self)@.insert(key@, value),
            final(self).slots() == if old(self)@.contains_key(key@) {
                old(self).slots().update(old(self).slot_of(key@), value)
            } else {
                old(self).slots().push(value)
            },
            final(self).names() == if old(self)@.contains_key(key@) {
                old(self).names()
            } else {
                old(self).names().push(key@)
            },
    {
        match self.find(key.as_str()) {
            Some(slot) => {
                proof {
                    self.lemma_slots();
                }
                self.set(slot, value);
            },
            None => {
                let slot: usize = self.values.len();
                let ghost name = key@;
                self.keys.push(key.clone());
                self.values.push(value);
                self.index.insert(key, slot);
                proof {
                    assert forall|i: int| 0 <= i < self.keys@.len() implies self.index@.contains_key(
                        (#[trigger] self.keys@[i])@,
                    ) && self.index@[self.keys@[i]@] == i by {
                        if i < slot {
                            assert(old(self).index@.contains_key(old(self).keys@[i]@));
                            assert(old(self).keys@[i]@ != name);
                        }
                    }
                    assert forall|other: Seq<char>| #[trigger] self.index@.contains_key(other) implies
                        self.index@[other] < self.keys@.len() && self.keys@[self.index@[other] as int]@
                        == other by {
                        if other != name {
                            assert(old(self).index@.contains_key(other));
                        }
                    }
                    assert forall|other: Seq<char>| #[trigger] self@.contains_key(other) implies
                        self@[other] == old(self)@.insert(name, value)[other] by {
                        if other != name {
                            assert(old(self).index@.contains_key(other));
                        }
                    }
                    assert(self@ =~= old(self)@.insert(name, value));
                }
            },
        }
    }

    /// Takes a key and its value out of the table. The entry in the last slot
    /// moves to the slot that becomes free.
    pub fn remove(&mut self, key: &str) -> (value: Option<T>)
        requires
            old(self).wf(),
        ensures
            final(self).wf(),
            final(self)@ == old(self)@.remove(key@),
            match value {
                Some(value) => old(self)@.contains_key(key@) && value == old(self)@[key@]
                    && final(self).slots() == without(old(self).slots(), old(self).slot_of(key@)),
                None => !old(self)@.contains_key(key@) && final(self).slots() == old(self).slots(),
            },
    {
        match self.find(key) {
            None => {
                assert(self@ =~= old(self)@.remove(key@));
                None
            },
            Some(slot) => {
                let last: usize = self.values.len() - 1;
                assert(self.index@.contains_key(key@));
                let value: T = self.values.swap_remove(slot);
                self.keys.swap_remove(slot);
                self.index.remove(key);
                if slot < last {
                    let moved: String = self.keys[slot].clone();
                    self.index.insert(moved, slot);
                }
                proof {
                    let before = old(self);
                    let moved = before.keys@[last as int]@;
                    assert(before.index@.contains_key(before.keys@[last as int]@));
                    assert(before.index@.contains_key(before.keys@[slot as int]@));
                    assert forall|i: int| 0 <= i < self.keys@.len() implies self.index@.contains_key(
                        (#[trigger] self.keys@[i])@,
                    ) && self.index@[self.keys@[i]@] == i by {
                        if i != slot {
                            assert(self.keys@[i] == before.keys@[i]);
                            assert(before.index@.contains_key(before.keys@[i]@));
                        }
                    }
                    assert forall|other: Seq<char>| #[trigger] self.index@.contains_key(other) implies
                        self.index@[other] < self.keys@.len() && self.keys@[self.index@[other] as int]@
                        == other by {
                        assert(before.index@.contains_key(other));
                    }
                    assert forall|other: Seq<char>| #[trigger] self@.contains_key(other) implies
                        before@.remove(key@).contains_key(other) && self@[other] == before@.remove(
                        key@,
                    )[other] by {
                        assert(self.index@.contains_key(other));
                        assert(before.index@.contains_key(other));
                    }
                    assert forall|other: Seq<char>| #[trigger] before@.remove(key@).contains_key(
                        other,
                    ) implies self@.contains_key(other) by {
                        assert(before.index@.contains_key(other));
                    }
                    assert(self@ =~= before@.remove(key@));
                    assert(self.slots() =~= without(before.slots(), before.slot_of(key@)));
                }
                Some(value)
            },
        }
    }
}

} // verus!
