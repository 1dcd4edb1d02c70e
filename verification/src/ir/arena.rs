//! Maps and sets keyed by handles.
//!
//! Handles are small consecutive integers, so both are vectors indexed by the
//! handle.

use vstd::prelude::*;

verus! {

/// A map from handles to values.
pub struct ArenaMap<V> {
    pub slots: Vec<Option<V>>,
}

impl<V> ArenaMap<V> {
    /// What the handle `key` maps to.
    pub open spec fn at(self, key: usize) -> Option<V> {
        if key < self.slots@.len() {
            self.slots@[key as int]
        } else {
            None
        }
    }

    /// A map without entries.
    pub fn new() -> (r: Self)
        ensures
            forall|k: usize| (#[trigger] r.at(k)) is None,
    {
        ArenaMap { slots: Vec::new() }
    }

    /// The entry of `key`, if there is one.
    pub fn get(&self, key: usize) -> (r: Option<&V>)
        ensures
            match r {
                Some(value) => self.at(key) == Some(*value),
                None => self.at(key) is None,
            },
    {
        if key < self.slots.len() {
            self.slots[key].as_ref()
        } else {
            None
        }
    }

    /// The entry of `key`, which must be there.
    pub fn expect(&self, key: usize) -> (r: &V)
        requires
            self.at(key) is Some,
        ensures
            self.at(key) == Some(*r),
    {
        self.slots[key].as_ref().unwrap()
    }

    /// Sets the entry of `key` and returns what it was.
    pub fn insert(&mut self, key: usize, value: V) -> (r: Option<V>)
        ensures
            r == old(self).at(key),
            final(self).at(key) == Some(value),
            forall|k: usize| k != key ==> #[trigger] final(self).at(k) == old(self).at(k),
    {
        while self.slots.len() <= key
            invariant
                forall|k: usize| #[trigger] self.at(k) == old(self).at(k),
            decreases key + 1 - self.slots@.len(),
        {
            let ghost before = *self;
            self.slots.push(None);
            assert forall|k: usize| #[trigger] self.at(k) == old(self).at(k) by {
                assert(self.at(k) == before.at(k));
            }
        }
        let ghost before = *self;
        assert(before.at(key) == old(self).at(key));
        let previous = self.slots[key].take();
        self.slots[key] = Some(value);
        assert forall|k: usize| k != key implies #[trigger] self.at(k) == old(self).at(k) by {
            assert(before.at(k) == old(self).at(k));
        }
        previous
    }

    /// Takes the entry of `key` out.
    pub fn remove(&mut self, key: usize) -> (r: Option<V>)
        ensures
            r == old(self).at(key),
            final(self).at(key) is None,
            forall|k: usize| k != key ==> #[trigger] final(self).at(k) == old(self).at(k),
    {
        if key < self.slots.len() {
            self.slots[key].take()
        } else {
            None
        }
    }
}

/// A set of handles.
pub struct ArenaSet {
    pub slots: Vec<bool>,
}

impl ArenaSet {
    /// The handle `key` is in the set.
    pub open spec fn has(self, key: usize) -> bool {
        key < self.slots@.len() && self.slots@[key as int]
    }

    /// The empty set.
    pub fn new() -> (r: Self)
        ensures
            forall|k: usize| !#[trigger] r.has(k),
    {
        ArenaSet { slots: Vec::new() }
    }

    /// Whether `key` is in the set.
    pub fn contains(&self, key: usize) -> (r: bool)
        ensures
            r == self.has(key),
    {
        key < self.slots.len() && self.slots[key]
    }

    /// Puts `key` into the set, and says whether it was new.
    pub fn insert(&mut self, key: usize) -> (r: bool)
        ensures
            r == !old(self).has(key),
            final(self).has(key),
            forall|k: usize| k != key ==> #[trigger] final(self).has(k) == old(self).has(k),
    {
        while self.slots.len() <= key
            invariant
                forall|k: usize| #[trigger] self.has(k) == old(self).has(k),
            decreases key + 1 - self.slots@.len(),
        {
            let ghost before = *self;
            self.slots.push(false);
            assert forall|k: usize| #[trigger] self.has(k) == old(self).has(k) by {
                assert(self.has(k) == before.has(k));
            }
        }
        let ghost before = *self;
        assert(before.has(key) == old(self).has(key));
        let added = !self.slots[key];
        self.slots[key] = true;
        assert forall|k: usize| k != key implies #[trigger] self.has(k) == old(self).has(k) by {
            assert(before.has(k) == old(self).has(k));
        }
        added
    }

    /// Takes `key` out of the set, and says whether it was there.
    pub fn remove(&mut self, key: usize) -> (r: bool)
        ensures
            r == old(self).has(key),
            !final(self).has(key),
            forall|k: usize| k != key ==> #[trigger] final(self).has(k) == old(self).has(k),
    {
        let present = self.contains(key);
        if present {
            self.slots[key] = false;
        }
        present
    }

    /// The members, in ascending order.
    pub fn items(&self) -> (r: Vec<usize>)
        ensures
            r@.len() <= self.slots@.len(),
            forall|k: usize| r@.contains(k) <==> #[trigger] self.has(k),
            forall|i: int, j: int| 0 <= i < j < r@.len() ==> #[trigger] r@[i] < #[trigger] r@[j],
    {
        let mut members: Vec<usize> = Vec::new();
        let mut key: usize = 0;
        while key < self.slots.len()
            invariant
                members@.len() <= key <= self.slots@.len(),
                forall|k: usize| members@.contains(k) <==> k < key && #[trigger] self.has(k),
                forall|i: int| 0 <= i < members@.len() ==> #[trigger] members@[i] < key,
                forall|i: int, j: int|
                    0 <= i < j < members@.len() ==> #[trigger] members@[i] < #[trigger] members@[j],
            decreases self.slots@.len() - key,
        {
            let ghost before = members@;
            if self.slots[key] {
                members.push(key);
                assert forall|k: usize| members@.contains(k) <==> k < key + 1 && #[trigger] self.has(
                    k,
                ) by {
                    if k == key {
                        assert(members@[before.len() as int] == k);
                    } else if before.contains(k) {
                        let i = choose|i: int| 0 <= i < before.len() && before[i] == k;
                        assert(members@[i] == k);
                    } else if members@.contains(k) {
                        let i = choose|i: int| 0 <= i < members@.len() && members@[i] == k;
                        assert(before[i] == k);
                    }
                }
            }
            key = key + 1;
        }
        members
    }
}

/// What was put under a key is found there, and what is under other keys is as it was.
pub proof fn entries_are_found<V>(
    before: ArenaMap<V>,
    after: ArenaMap<V>,
    key: usize,
    value: V,
    was: Option<V>,
    other: usize,
    old_one: Option<&V>,
    new_one: Option<&V>,
)
    requires
        exists|map: &mut ArenaMap<V>|
            *map == before && *final(map) == after && #[trigger] call_ensures(
                ArenaMap::<V>::insert,
                (map, key, value),
                was,
            ),
        call_ensures(ArenaMap::<V>::get, (&before, other), old_one),
        call_ensures(ArenaMap::<V>::get, (&after, other), new_one),
    ensures
        other == key ==> (new_one matches Some(found) && *found == value),
        other == key ==> match (was, old_one) {
            (Some(given), Some(found)) => given == *found,
            (None, None) => true,
            _ => false,
        },
        other != key ==> match (new_one, old_one) {
            (Some(now), Some(then)) => *now == *then,
            (None, None) => true,
            _ => false,
        },
{
}

/// What was taken out is not found any more, and what is under other keys is as it was.
pub proof fn removed_entries_are_gone<V>(
    before: ArenaMap<V>,
    after: ArenaMap<V>,
    key: usize,
    was: Option<V>,
    other: usize,
    old_one: Option<&V>,
    new_one: Option<&V>,
)
    requires
        exists|map: &mut ArenaMap<V>|
            *map == before && *final(map) == after && #[trigger] call_ensures(
                ArenaMap::<V>::remove,
                (map, key),
                was,
            ),
        call_ensures(ArenaMap::<V>::get, (&before, other), old_one),
        call_ensures(ArenaMap::<V>::get, (&after, other), new_one),
    ensures
        other == key ==> new_one is None,
        other == key ==> match (was, old_one) {
            (Some(given), Some(found)) => given == *found,
            (None, None) => true,
            _ => false,
        },
        other != key ==> match (new_one, old_one) {
            (Some(now), Some(then)) => *now == *then,
            (None, None) => true,
            _ => false,
        },
{
}

/// A set holds exactly what was put into it and not taken out again; who puts something in
/// learns whether it is new, and who takes something out whether it was there.
pub proof fn members_are_found(
    sets: (ArenaSet, ArenaSet, ArenaSet),
    key: usize,
    new: bool,
    there: bool,
    other: usize,
    held: (bool, bool, bool),
)
    requires
        exists|set: &mut ArenaSet|
            *set == sets.0 && *final(set) == sets.1 && #[trigger] call_ensures(
                ArenaSet::insert,
                (set, key),
                new,
            ),
        exists|set: &mut ArenaSet|
            *set == sets.1 && *final(set) == sets.2 && #[trigger] call_ensures(
                ArenaSet::remove,
                (set, key),
                there,
            ),
        call_ensures(ArenaSet::contains, (&sets.0, other), held.0),
        call_ensures(ArenaSet::contains, (&sets.1, other), held.1),
        call_ensures(ArenaSet::contains, (&sets.2, other), held.2),
    ensures
        there,
        other == key ==> new == !held.0 && held.1 && !held.2,
        other != key ==> held.1 == held.0 && held.2 == held.0,
{
}

/// The members of a set come in ascending order, each once, and nothing else comes.
pub proof fn members_come_in_order(set: ArenaSet, r: Vec<usize>, key: usize, held: bool)
    requires
        call_ensures(ArenaSet::items, (&set,), r),
        call_ensures(ArenaSet::contains, (&set, key), held),
    ensures
        r@.contains(key) <==> held,
        forall|i: int, j: int| 0 <= i < j < r@.len() ==> #[trigger] r@[i] < #[trigger] r@[j],
{
    assert(r@.contains(key) <==> set.has(key));
}

} // verus!
