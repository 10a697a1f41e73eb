//! A small map that keeps its entries in insertion order.

use vstd::prelude::*;

verus! {

/// A key that can be compared at run time.
pub trait Key: Copy {
    fn same(self, other: Self) -> (equal: bool)
        ensures
            equal == (self == other),
    ;
}

impl Key for u64 {
    fn same(self, other: Self) -> (equal: bool) {
        self == other
    }
}


pub open spec fn keys_unique<K, V>(entries: Seq<(K, V)>) -> bool {
    forall|i: int, j: int|
        #![trigger entries[i], entries[j]]
        0 <= i < j < entries.len() ==> entries[i].0 != entries[j].0
}

pub open spec fn has_key<K, V>(entries: Seq<(K, V)>, key: K) -> bool {
    exists|i: int| 0 <= i < entries.len() && (#[trigger] entries[i]).0 == key
}

/// The map from the keys of `entries` to their values.
pub open spec fn entries_map<K, V>(entries: Seq<(K, V)>) -> Map<K, V> {
    Map::new(
        |key: K| has_key(entries, key),
        |key: K|
            entries[choose|i: int| 0 <= i < entries.len() && (#[trigger] entries[i]).0 == key].1,
    )
}

pub proof fn lemma_entry_in_map<K, V>(entries: Seq<(K, V)>, i: int)
    requires
        keys_unique(entries),
        0 <= i < entries.len(),
    ensures
        entries_map(entries).contains_key(entries[i].0),
        entries_map(entries)[entries[i].0] == entries[i].1,
{
    let key = entries[i].0;
    assert(has_key(entries, key));
    let j = choose|j: int| 0 <= j < entries.len() && (#[trigger] entries[j]).0 == key;
    assert(i == j) by {
        if i < j {
            assert(entries[i].0 != entries[j].0);
        } else if j < i {
            assert(entries[j].0 != entries[i].0);
        }
    }
}

/// Distinct keys make the map as large as the list.
pub proof fn lemma_map_len<K, V>(entries: Seq<(K, V)>)
    requires
        keys_unique(entries),
    ensures
        entries_map(entries).dom().finite(),
        entries_map(entries).dom().len() == entries.len(),
    decreases entries.len(),
{
    if entries.len() == 0 {
        assert(entries_map(entries).dom() =~= Set::<K>::empty());
    } else {
        let rest = entries.drop_last();
        assert(keys_unique(rest));
        lemma_map_len(rest);
        let last = entries.last();
        assert(!has_key(rest, last.0)) by {
            if has_key(rest, last.0) {
                let i = choose|i: int| 0 <= i < rest.len() && (#[trigger] rest[i]).0 == last.0;
                assert(entries[i].0 != entries[entries.len() - 1].0);
            }
        }
        assert(entries_map(entries).dom() =~= entries_map(rest).dom().insert(last.0)) by {
            assert forall|key: K| has_key(entries, key) implies has_key(rest, key) || key
                == last.0 by {
                let i = choose|i: int| 0 <= i < entries.len() && (#[trigger] entries[i]).0 == key;
                if i < rest.len() {
                    assert(rest[i].0 == key);
                }
            }
            assert forall|key: K| has_key(rest, key) implies has_key(entries, key) by {
                let i = choose|i: int| 0 <= i < rest.len() && (#[trigger] rest[i]).0 == key;
                assert(entries[i].0 == key);
            }
            assert(entries[entries.len() - 1].0 == last.0);
        }
    }
}

/// A map from keys to values that remembers the order in which keys arrived.
#[derive(Debug)]
pub struct KeyedMap<K, V> {
    pub(crate) entries: Vec<(K, V)>,
}

impl<K, V> View for KeyedMap<K, V> {
    type V = Map<K, V>;

    open(crate) spec fn view(&self) -> Map<K, V> {
        entries_map(self.entries@)
    }
}

impl<K, V> KeyedMap<K, V> {
    /// No key occurs twice.
    pub open(crate) spec fn wf(self) -> bool {
        keys_unique(self.entries@)
    }

    /// The entries in the order in which their keys arrived.
    pub open(crate) spec fn order(self) -> Seq<(K, V)> {
        self.entries@
    }
}

impl<K: Key, V> KeyedMap<K, V> {
    pub fn new() -> (map: Self)
        ensures
            map.wf(),
            map@ == Map::<K, V>::empty(),
            map.order() == Seq::<(K, V)>::empty(),
    {
        let map = KeyedMap { entries: Vec::new() };
        assert(map@ =~= Map::<K, V>::empty());
        map
    }

    pub fn len(&self) -> (len: usize)
        requires
            self.wf(),
        ensures
            len == self.order().len(),
            len == self@.dom().len(),
            self@.dom().finite(),
    {
        proof {
            lemma_map_len(self.entries@);
        }
        self.entries.len()
    }

    /// The position of `key` in arrival order.
    pub fn find(&self, key: K) -> (found: Option<usize>)
        requires
            self.wf(),
        ensures
            match found {
                Some(i) => i < self.order().len() && self.order()[i as int].0 == key
                    && self@.contains_key(key) && self@[key] == self.order()[i as int].1,
                None => !self@.contains_key(key),
            },
    {
        let mut i: usize = 0;
        while i < self.entries.len()
            invariant
                self.wf(),
                i <= self.entries.len(),
                forall|j: int| 0 <= j < i ==> (#[trigger] self.entries@[j]).0 != key,
            decreases self.entries.len() - i,
        {
            if self.entries[i].0.same(key) {
                proof {
                    lemma_entry_in_map(self.entries@, i as int);
                }
                return Some(i);
            }
            i += 1;
        }
        None
    }

    pub fn contains(&self, key: K) -> (present: bool)
        requires
            self.wf(),
        ensures
            present == self@.contains_key(key),
    {
        self.find(key).is_some()
    }

    pub fn get(&self, key: K) -> (value: Option<&V>)
        requires
            self.wf(),
        ensures
            value == (if self@.contains_key(key) {
                Some(&self@[key])
            } else {
                None
            }),
    {
        match self.find(key) {
            Some(i) => Some(&self.entries[i].1),
            None => None,
        }
    }

    /// Sets the value of `key`, and hands back the value that it replaced.
    pub fn insert(&mut self, key: K, value: V) -> (previous: Option<V>)
        requires
            old(self).wf(),
        ensures
            final(self).wf(),
            final(self)@ == old(self)@.insert(key, value),
            previous == (if old(self)@.contains_key(key) {
                Some(old(self)@[key])
            } else {
                None
            }),
            !old(self)@.contains_key(key) ==> final(self).order() == old(self).order().push(
                (key, value),
            ),
    {
        let ghost before = self.entries@;
        match self.find(key) {
            Some(i) => {
                let mut slot = (key, value);
                std::mem::swap(&mut self.entries[i], &mut slot);
                proof {
                    let after = self.entries@;
                    assert(after == before.update(i as int, (key, value)));
                    lemma_replaced(before, i as int, value);
                }
                Some(slot.1)
            },
            None => {
                self.entries.push((key, value));
                proof {
                    lemma_pushed(before, key, value);
                }
                None
            },
        }
    }

    /// Takes `key` out, and hands back its value.
    pub fn remove(&mut self, key: K) -> (previous: Option<V>)
        requires
            old(self).wf(),
        ensures
            final(self).wf(),
            final(self)@ == old(self)@.remove(key),
            previous == (if old(self)@.contains_key(key) {
                Some(old(self)@[key])
            } else {
                None
            }),
            !old(self)@.contains_key(key) ==> *final(self) == *old(self),
    {
        let ghost before = self.entries@;
        match self.find(key) {
            Some(i) => {
                let removed = self.entries.remove(i);
                proof {
                    lemma_removed(before, i as int);
                }
                Some(removed.1)
            },
            None => {
                assert(self@.remove(key) =~= self@);
                None
            },
        }
    }
}

/// What a key maps to, if anything.
pub open spec fn value_of<K, V>(map: Map<K, V>, key: K) -> Option<V> {
    if map.contains_key(key) {
        Some(map[key])
    } else {
        None
    }
}

/// The map with `key` set to `value`, or without it.
pub open spec fn with_value<K, V>(map: Map<K, V>, key: K, value: Option<V>) -> Map<K, V> {
    match value {
        Some(value) => map.insert(key, value),
        None => map.remove(key),
    }
}

/// The map after changes have been taken back, the last one first. Each change holds
/// a key and what it had been before.
pub open spec fn taken_back<K, V>(map: Map<K, V>, changes: Seq<(K, Option<V>)>) -> Map<K, V>
    decreases changes.len(),
{
    if changes.len() == 0 {
        map
    } else {
        taken_back(
            with_value(map, changes.last().0, changes.last().1),
            changes.drop_last(),
        )
    }
}

/// Takes changes back, the last one first.
pub fn take_back<K: Key, V>(map: &mut KeyedMap<K, V>, changes: Vec<(K, Option<V>)>)
    requires
        old(map).wf(),
    ensures
        final(map).wf(),
        final(map)@ == taken_back(old(map)@, changes@),
{
    let mut changes = changes;
    let ghost target = taken_back(map@, changes@);
    while changes.len() > 0
        invariant
            map.wf(),
            taken_back(map@, changes@) == target,
        decreases changes@.len(),
    {
        let ghost left = changes@;
        match changes.pop() {
            Some((key, value)) => {
                assert(left.last() == (key, value));
                assert(changes@ =~= left.drop_last());
                match value {
                    Some(value) => {
                        map.insert(key, value);
                    },
                    None => {
                        map.remove(key);
                    },
                }
            },
            None => {},
        }
    }
}

/// Taking back changes that all remember the same map leads back to it, wherever the
/// maps differ on changed keys alone.
pub proof fn lemma_taken_back<K, V>(
    original: Map<K, V>,
    map: Map<K, V>,
    changes: Seq<(K, Option<V>)>,
)
    requires
        forall|i: int|
            #![trigger changes[i]]
            0 <= i < changes.len() ==> changes[i].1 == value_of(original, changes[i].0),
        forall|key: K|
            #![trigger map.contains_key(key)]
            (forall|i: int| 0 <= i < changes.len() ==> (#[trigger] changes[i]).0 != key)
                ==> value_of(map, key) == value_of(original, key),
    ensures
        taken_back(map, changes) == original,
    decreases changes.len(),
{
    if changes.len() == 0 {
        assert forall|key: K| #[trigger] map.contains_key(key) == original.contains_key(key) by {
            assert(value_of(map, key) == value_of(original, key));
        }
        assert forall|key: K| #[trigger] map.contains_key(key) implies map[key]
            == original[key] by {
            assert(value_of(map, key) == value_of(original, key));
        }
        assert(map =~= original);
    } else {
        let rest = changes.drop_last();
        let last = changes.last();
        let next = with_value(map, last.0, last.1);
        assert forall|i: int|
            #![trigger rest[i]]
            0 <= i < rest.len() implies rest[i].1 == value_of(original, rest[i].0) by {
            assert(rest[i] == changes[i]);
        }
        assert(changes[changes.len() - 1].1 == value_of(original, last.0));
        assert forall|key: K|
            #![trigger next.contains_key(key)]
            (forall|i: int| 0 <= i < rest.len() ==> (#[trigger] rest[i]).0 != key) implies value_of(
            next,
            key,
        ) == value_of(original, key) by {
            if key != last.0 {
                assert forall|i: int| 0 <= i < changes.len() implies (#[trigger] changes[i]).0
                    != key by {
                    if i < rest.len() {
                        assert(rest[i] == changes[i]);
                    }
                }
                assert(map.contains_key(key) == next.contains_key(key));
            }
        }
        lemma_taken_back(original, next, rest);
    }
}

pub proof fn lemma_replaced<K, V>(entries: Seq<(K, V)>, i: int, value: V)
    requires
        keys_unique(entries),
        0 <= i < entries.len(),
    ensures
        keys_unique(entries.update(i, (entries[i].0, value))),
        entries_map(entries.update(i, (entries[i].0, value))) == entries_map(entries).insert(
            entries[i].0,
            value,
        ),
{
    let after = entries.update(i, (entries[i].0, value));
    assert forall|a: int, b: int|
        #![trigger after[a], after[b]]
        0 <= a < b < after.len() implies after[a].0 != after[b].0 by {
        assert(entries[a].0 != entries[b].0);
    }
    assert forall|key: K| has_key(after, key) == has_key(entries, key) by {
        if has_key(after, key) {
            let j = choose|j: int| 0 <= j < after.len() && (#[trigger] after[j]).0 == key;
            assert(entries[j].0 == key);
        }
        if has_key(entries, key) {
            let j = choose|j: int| 0 <= j < entries.len() && (#[trigger] entries[j]).0 == key;
            assert(after[j].0 == key);
        }
    }
    assert(has_key(entries, entries[i].0));
    assert forall|key: K| has_key(after, key) implies entries_map(after)[key] == entries_map(
        entries,
    ).insert(entries[i].0, value)[key] by {
        let j = choose|j: int| 0 <= j < after.len() && (#[trigger] after[j]).0 == key;
        lemma_entry_in_map(after, j);
        lemma_entry_in_map(entries, j);
        if j != i {
            if j < i {
                assert(entries[j].0 != entries[i].0);
            } else {
                assert(entries[i].0 != entries[j].0);
            }
        }
    }
    assert(entries_map(after) =~= entries_map(entries).insert(entries[i].0, value));
}

pub proof fn lemma_pushed<K, V>(entries: Seq<(K, V)>, key: K, value: V)
    requires
        keys_unique(entries),
        !has_key(entries, key),
    ensures
        keys_unique(entries.push((key, value))),
        entries_map(entries.push((key, value))) == entries_map(entries).insert(key, value),
{
    let after = entries.push((key, value));
    assert forall|a: int, b: int|
        #![trigger after[a], after[b]]
        0 <= a < b < after.len() implies after[a].0 != after[b].0 by {
        assert(after[a] == entries[a]);
        if b < entries.len() {
            assert(entries[a].0 != entries[b].0);
        } else {
            assert(entries[a].0 != key);
        }
    }
    assert forall|k: K| has_key(after, k) == (has_key(entries, k) || k == key) by {
        if has_key(after, k) {
            let j = choose|j: int| 0 <= j < after.len() && (#[trigger] after[j]).0 == k;
            if j < entries.len() {
                assert(entries[j].0 == k);
            }
        }
        if has_key(entries, k) {
            let j = choose|j: int| 0 <= j < entries.len() && (#[trigger] entries[j]).0 == k;
            assert(after[j].0 == k);
        }
        if k == key {
            assert(after[entries.len() as int].0 == k);
        }
    }
    assert forall|k: K| has_key(after, k) implies entries_map(after)[k] == entries_map(
        entries,
    ).insert(key, value)[k] by {
        let j = choose|j: int| 0 <= j < after.len() && (#[trigger] after[j]).0 == k;
        lemma_entry_in_map(after, j);
        if j < entries.len() {
            assert(after[j] == entries[j]);
            lemma_entry_in_map(entries, j);
        }
    }
    assert(entries_map(after) =~= entries_map(entries).insert(key, value));
}

pub proof fn lemma_removed<K, V>(entries: Seq<(K, V)>, i: int)
    requires
        keys_unique(entries),
        0 <= i < entries.len(),
    ensures
        keys_unique(entries.remove(i)),
        entries_map(entries.remove(i)) == entries_map(entries).remove(entries[i].0),
{
    let after = entries.remove(i);
    let key = entries[i].0;
    assert forall|a: int, b: int|
        #![trigger after[a], after[b]]
        0 <= a < b < after.len() implies after[a].0 != after[b].0 by {
        let oa = if a < i { a } else { a + 1 };
        let ob = if b < i { b } else { b + 1 };
        assert(after[a] == entries[oa] && after[b] == entries[ob]);
        assert(entries[oa].0 != entries[ob].0);
    }
    assert forall|k: K| has_key(after, k) == (has_key(entries, k) && k != key) by {
        if has_key(after, k) {
            let j = choose|j: int| 0 <= j < after.len() && (#[trigger] after[j]).0 == k;
            let oj = if j < i { j } else { j + 1 };
            assert(after[j] == entries[oj]);
            if oj < i {
                assert(entries[oj].0 != entries[i].0);
            } else {
                assert(entries[i].0 != entries[oj].0);
            }
        }
        if has_key(entries, k) && k != key {
            let j = choose|j: int| 0 <= j < entries.len() && (#[trigger] entries[j]).0 == k;
            let nj = if j < i { j } else { j - 1 };
            assert(after[nj] == entries[j]);
        }
    }
    assert forall|k: K| has_key(after, k) implies entries_map(after)[k] == entries_map(
        entries,
    )[k] by {
        let j = choose|j: int| 0 <= j < after.len() && (#[trigger] after[j]).0 == k;
        let oj = if j < i { j } else { j + 1 };
        assert(after[j] == entries[oj]);
        lemma_entry_in_map(after, j);
        lemma_entry_in_map(entries, oj);
    }
    assert(entries_map(after) =~= entries_map(entries).remove(key));
}

} // verus!
