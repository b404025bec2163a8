//! A table of records by text, kept in the order of the texts.

use vstd::prelude::*;

use crate::order::{
    lemma_precedes_asymmetric, lemma_precedes_irreflexive, lemma_precedes_total,
    lemma_precedes_transitive, precedes, text_precedes,
};
use crate::text::same;

verus! {

/// A record that can be copied.
pub trait Record: View + Sized {
    /// A copy of the record.
    fn copied(&self) -> (r: Self)
        ensures
            r@ == self@,
    ;
}

/// A record under its key.
pub struct Entry<V> {
    pub key: String,
    pub value: V,
}

/// Whether every key precedes the keys after it.
pub open spec fn ascending(keys: Seq<Seq<char>>) -> bool {
    forall|i: int, j: int|
        0 <= i < j < keys.len() ==> precedes(#[trigger] keys[i], #[trigger] keys[j])
}

/// Keys that ascend are listed in one way.
pub proof fn law_ascending_is_unique(left: Seq<Seq<char>>, right: Seq<Seq<char>>)
    requires
        ascending(left),
        ascending(right),
        forall|key: Seq<char>| #[trigger] left.contains(key) <==> right.contains(key),
    ensures
        left == right,
    decreases left.len(),
{
    if left.len() == 0 {
        if right.len() > 0 {
            assert(right.contains(right[0]));
            assert(left.contains(right[0]));
        }
        assert(left =~= right);
    } else {
        assert(left.contains(left[0]));
        assert(right.len() > 0);
        let at = choose|i: int| 0 <= i < right.len() && right[i] == left[0];
        assert(right.contains(right[0]));
        assert(left.contains(right[0]));
        let to = choose|i: int| 0 <= i < left.len() && left[i] == right[0];
        if at > 0 && to > 0 {
            assert(precedes(right[0], right[at]));
            assert(precedes(left[0], left[to]));
            lemma_precedes_asymmetric(left[0], right[0]);
        }
        let rest_left = left.drop_first();
        let rest_right = right.drop_first();
        assert forall|i: int, j: int| 0 <= i < j < rest_left.len() implies precedes(
            #[trigger] rest_left[i],
            #[trigger] rest_left[j],
        ) by {
            assert(precedes(left[i + 1], left[j + 1]));
        }
        assert forall|i: int, j: int| 0 <= i < j < rest_right.len() implies precedes(
            #[trigger] rest_right[i],
            #[trigger] rest_right[j],
        ) by {
            assert(precedes(right[i + 1], right[j + 1]));
        }
        assert forall|key: Seq<char>| #[trigger] rest_left.contains(key) <==> rest_right.contains(
            key,
        ) by {
            if rest_left.contains(key) {
                let i = choose|i: int| 0 <= i < rest_left.len() && rest_left[i] == key;
                assert(left[i + 1] == key && precedes(left[0], left[i + 1]));
                lemma_precedes_asymmetric(left[0], left[i + 1]);
                assert(left.contains(key));
                let j = choose|j: int| 0 <= j < right.len() && right[j] == key;
                assert(rest_right[j - 1] == key);
            }
            if rest_right.contains(key) {
                let i = choose|i: int| 0 <= i < rest_right.len() && rest_right[i] == key;
                assert(right[i + 1] == key && precedes(right[0], right[i + 1]));
                lemma_precedes_asymmetric(right[0], right[i + 1]);
                assert(right.contains(key));
                assert(left.contains(key));
                let j = choose|j: int| 0 <= j < left.len() && left[j] == key;
                assert(rest_left[j - 1] == key);
            }
        }
        law_ascending_is_unique(rest_left, rest_right);
        assert(left =~= seq![left[0]] + rest_left);
        assert(right =~= seq![right[0]] + rest_right);
    }
}

/// Whether `keys` lists the keys of a map in ascending order.
pub open spec fn lists_keys<V>(keys: Seq<Seq<char>>, map: Map<Seq<char>, V>) -> bool {
    &&& ascending(keys)
    &&& forall|key: Seq<char>| #[trigger] map.contains_key(key) <==> keys.contains(key)
}

/// The keys of a map in ascending order.
pub open spec fn keys_of<V>(map: Map<Seq<char>, V>) -> Seq<Seq<char>> {
    choose|keys: Seq<Seq<char>>| lists_keys(keys, map)
}

/// The records of a map in the order of their keys.
pub open spec fn values_of<V>(map: Map<Seq<char>, V>) -> Seq<V> {
    Seq::new(keys_of(map).len(), |i: int| map[keys_of(map)[i]])
}

/// The keys of a map are listed in one way.
pub proof fn lemma_keys_of<V>(keys: Seq<Seq<char>>, map: Map<Seq<char>, V>)
    requires
        lists_keys(keys, map),
    ensures
        keys == keys_of(map),
{
    let other = keys_of(map);
    assert(lists_keys(other, map));
    assert forall|key: Seq<char>| #[trigger] keys.contains(key) <==> other.contains(key) by {
        assert(map.contains_key(key) <==> keys.contains(key));
        assert(map.contains_key(key) <==> other.contains(key));
    }
    law_ascending_is_unique(keys, other);
}

/// The place at or before `at` where one more key goes.
spec fn key_place(keys: Seq<Seq<char>>, key: Seq<char>, at: int) -> int
    decreases at,
{
    if at > 0 && precedes(key, keys[at - 1]) {
        key_place(keys, key, at - 1)
    } else {
        at
    }
}

/// The keys before the place precede the new one, and those after it follow it.
proof fn lemma_key_place(keys: Seq<Seq<char>>, key: Seq<char>, at: int)
    requires
        ascending(keys),
        !keys.contains(key),
        0 <= at <= keys.len(),
    ensures
        0 <= key_place(keys, key, at) <= at,
        forall|i: int|
            key_place(keys, key, at) <= i < at ==> precedes(key, #[trigger] keys[i]),
        forall|i: int| 0 <= i < key_place(keys, key, at) ==> precedes(#[trigger] keys[i], key),
    decreases at,
{
    if at > 0 && precedes(key, keys[at - 1]) {
        lemma_key_place(keys, key, at - 1);
    } else if at > 0 {
        lemma_precedes_total(keys[at - 1], key);
        assert(keys.contains(keys[at - 1]));
        assert forall|i: int| 0 <= i < at implies precedes(#[trigger] keys[i], key) by {
            if i < at - 1 {
                assert(precedes(keys[i], keys[at - 1]));
                lemma_precedes_transitive(keys[i], keys[at - 1], key);
            }
        }
    }
}

/// The keys of a finite map can be listed.
pub proof fn lemma_keys_exist<V>(map: Map<Seq<char>, V>)
    requires
        map.dom().finite(),
    ensures
        lists_keys(keys_of(map), map),
    decreases map.dom().len(),
{
    if map.dom().len() == 0 {
        let keys = Seq::<Seq<char>>::empty();
        assert(map.dom() =~= Set::empty());
        assert forall|key: Seq<char>| #[trigger] map.contains_key(key) <==> keys.contains(key) by {
            assert(!map.dom().contains(key));
        }
        assert(lists_keys(keys, map));
    } else {
        let new = map.dom().choose();
        let rest = map.remove(new);
        assert(rest.dom() =~= map.dom().remove(new));
        lemma_keys_exist(rest);
        let before = keys_of(rest);
        assert(!rest.contains_key(new));
        assert(!before.contains(new));
        let n = before.len() as int;
        let at = key_place(before, new, n);
        lemma_key_place(before, new, n);
        let keys = before.insert(at, new);
        assert forall|i: int, j: int| 0 <= i < j < keys.len() implies precedes(
            #[trigger] keys[i],
            #[trigger] keys[j],
        ) by {
            let from_i = if i < at {
                i
            } else {
                i - 1
            };
            let from_j = if j < at {
                j
            } else {
                j - 1
            };
            if i == at {
                assert(keys[j] == before[from_j]);
            } else if j == at {
                assert(keys[i] == before[from_i]);
            } else {
                assert(keys[i] == before[from_i]);
                assert(keys[j] == before[from_j]);
                assert(precedes(before[from_i], before[from_j]));
            }
        }
        assert forall|key: Seq<char>| #[trigger] map.contains_key(key) <==> keys.contains(key) by {
            assert(rest.contains_key(key) <==> before.contains(key));
            if before.contains(key) {
                let i = choose|i: int| 0 <= i < before.len() && before[i] == key;
                let to = if i < at {
                    i
                } else {
                    i + 1
                };
                assert(keys[to] == key);
            }
            if key == new {
                assert(keys[at] == key);
            }
            if keys.contains(key) {
                let i = choose|i: int| 0 <= i < keys.len() && keys[i] == key;
                if i < at {
                    assert(before[i] == key);
                } else if i > at {
                    assert(before[i - 1] == key);
                }
            }
        }
        assert(lists_keys(keys, map));
    }
}

/// Records by key; no key occurs twice, and the keys ascend.
pub struct Table<V: View> {
    entries: Vec<Entry<V>>,
}

impl<V: View> Table<V> {
    /// The keys in their order.
    pub closed spec fn keys(self) -> Seq<Seq<char>> {
        Seq::new(self.entries@.len(), |i: int| self.entries@[i].key@)
    }

    /// The record at place `i`.
    pub closed spec fn record(self, i: int) -> V::V {
        self.entries@[i].value@
    }

    #[verifier::type_invariant]
    spec fn sorted(self) -> bool {
        ascending(self.keys())
    }
}

impl<V: View> View for Table<V> {
    type V = Map<Seq<char>, V::V>;

    closed spec fn view(&self) -> Map<Seq<char>, V::V> {
        Map::new(
            |key: Seq<char>| self.keys().contains(key),
            |key: Seq<char>| self.record(self.keys().index_of(key)),
        )
    }
}

/// In an ascending sequence no key occurs twice.
proof fn lemma_ascending_unique(keys: Seq<Seq<char>>, i: int, j: int)
    requires
        ascending(keys),
        0 <= i < keys.len(),
        0 <= j < keys.len(),
        keys[i] == keys[j],
    ensures
        i == j,
{
    lemma_precedes_irreflexive(keys[i]);
    if i < j {
        assert(precedes(keys[i], keys[j]));
    } else if j < i {
        assert(precedes(keys[j], keys[i]));
    }
}

impl<V: View> Table<V> {
    /// The table holds what stands at place `i`, under its key.
    proof fn lemma_at(self, i: int)
        requires
            self.sorted(),
            0 <= i < self.keys().len(),
        ensures
            self@.contains_key(self.keys()[i]),
            self@[self.keys()[i]] == self.record(i),
    {
        let key = self.keys()[i];
        assert(self.keys().contains(key));
        let j = self.keys().index_of(key);
        lemma_ascending_unique(self.keys(), i, j);
    }

    /// A table without records.
    pub fn new() -> (r: Table<V>)
        ensures
            r@ == Map::<Seq<char>, V::V>::empty(),
            r.keys() == Seq::<Seq<char>>::empty(),
    {
        let r = Table { entries: Vec::new() };
        assert(r.keys() =~= Seq::<Seq<char>>::empty());
        assert(r@ =~= Map::<Seq<char>, V::V>::empty());
        r
    }

    /// How many records there are. The keys ascend and are those of the view.
    pub fn len(&self) -> (n: usize)
        ensures
            n == self.keys().len(),
            ascending(self.keys()),
            forall|key: Seq<char>| #[trigger]
                self@.contains_key(key) <==> self.keys().contains(key),
            self.keys() == keys_of(self@),
    {
        proof {
            use_type_invariant(self);
            lemma_keys_of(self.keys(), self@);
        }
        self.entries.len()
    }

    /// The key at place `i`.
    pub fn key_at(&self, i: usize) -> (key: &String)
        requires
            i < self.keys().len(),
        ensures
            key@ == self.keys()[i as int],
    {
        &self.entries[i].key
    }

    /// The record at place `i`.
    pub fn value_at(&self, i: usize) -> (value: &V)
        requires
            i < self.keys().len(),
        ensures
            value@ == self.record(i as int),
            self@.contains_key(self.keys()[i as int]),
            self@[self.keys()[i as int]] == value@,
    {
        proof {
            use_type_invariant(self);
            self.lemma_at(i as int);
        }
        &self.entries[i].value
    }

    /// The place of the first key that does not precede `key`.
    fn place(&self, key: &str) -> (at: usize)
        ensures
            at <= self.keys().len(),
            forall|i: int| 0 <= i < at ==> precedes(#[trigger] self.keys()[i], key@),
            forall|i: int|
                at < i < self.keys().len() ==> precedes(key@, #[trigger] self.keys()[i]),
            at < self.keys().len() ==> !precedes(self.keys()[at as int], key@),
    {
        proof {
            use_type_invariant(self);
        }
        let mut at: usize = 0;
        while at < self.entries.len() && text_precedes(self.entries[at].key.as_str(), key)
            invariant
                at <= self.keys().len(),
                self.keys().len() == self.entries@.len(),
                forall|i: int| 0 <= i < at ==> precedes(#[trigger] self.keys()[i], key@),
            decreases self.entries@.len() - at,
        {
            assert(self.keys()[at as int] == self.entries@[at as int].key@);
            at += 1;
        }
        proof {
            if at < self.keys().len() {
                let here = self.keys()[at as int];
                lemma_precedes_total(key@, here);
                assert forall|i: int| at < i < self.keys().len() implies precedes(
                    key@,
                    #[trigger] self.keys()[i],
                ) by {
                    if key@ != here {
                        lemma_precedes_transitive(key@, here, self.keys()[i]);
                    }
                }
            }
        }
        at
    }

    /// The place of `key`.
    fn position(&self, key: &str) -> (r: Option<usize>)
        ensures
            match r {
                Some(i) => i < self.keys().len() && self.keys()[i as int] == key@,
                None => !self.keys().contains(key@),
            },
    {
        let at = self.place(key);
        if at < self.entries.len() && same(self.entries[at].key.as_str(), key) {
            return Some(at);
        }
        proof {
            if self.keys().contains(key@) {
                let i = self.keys().index_of(key@);
                lemma_precedes_irreflexive(key@);
                assert(self.keys()[i] == key@);
            }
        }
        None
    }

    /// The record under `key`.
    pub fn get(&self, key: &str) -> (r: Option<&V>)
        ensures
            match r {
                Some(value) => self@.contains_key(key@) && self@[key@] == value@,
                None => !self@.contains_key(key@),
            },
    {
        proof {
            use_type_invariant(self);
        }
        match self.position(key) {
            Some(i) => {
                proof {
                    self.lemma_at(i as int);
                }
                Some(&self.entries[i].value)
            },
            None => None,
        }
    }

    /// Puts a record under `key`, in place of what was there.
    pub fn insert(&mut self, key: String, value: V)
        ensures
            final(self)@ == old(self)@.insert(key@, value@),
    {
        proof {
            use_type_invariant(&*self);
        }
        let ghost before = *self;
        let at = self.place(key.as_str());
        let taken = at < self.entries.len() && same(self.entries[at].key.as_str(), key.as_str());
        let mut entries: Vec<Entry<V>> = Vec::new();
        std::mem::swap(&mut entries, &mut self.entries);
        if taken {
            let removed = entries.remove(at);
        }
        entries.insert(at, Entry { key, value });
        let ghost after = Table { entries };
        proof {
            let old_keys = before.keys();
            let new_keys = after.keys();
            let shift: int = if taken {
                0
            } else {
                1
            };
            assert(new_keys.len() == old_keys.len() + shift);
            assert(new_keys[at as int] == key@);
            assert forall|i: int| 0 <= i < at implies #[trigger] new_keys[i] == old_keys[i]
                && after.record(i) == before.record(i) by {}
            assert forall|i: int| at < i < new_keys.len() implies #[trigger] new_keys[i]
                == old_keys[i - shift] && after.record(i) == before.record(i - shift) by {}
            if !taken && at < old_keys.len() {
                lemma_precedes_total(key@, old_keys[at as int]);
            }
            assert forall|i: int, j: int| 0 <= i < j < new_keys.len() implies precedes(
                #[trigger] new_keys[i],
                #[trigger] new_keys[j],
            ) by {
                if i < at && j > at {
                    assert(precedes(old_keys[i], old_keys[j - shift]));
                } else if i > at {
                    assert(precedes(old_keys[i - shift], old_keys[j - shift]));
                } else if j < at {
                    assert(precedes(old_keys[i], old_keys[j]));
                }
            }
            assert forall|k: Seq<char>| #[trigger]
                after@.contains_key(k) <==> before@.contains_key(k) || k == key@ by {
                if after@.contains_key(k) {
                    let i = new_keys.index_of(k);
                    if i < at {
                        assert(old_keys[i] == k);
                        assert(old_keys.contains(k));
                    } else if i > at {
                        assert(old_keys[i - shift] == k);
                        assert(old_keys.contains(k));
                    }
                }
                if before@.contains_key(k) && k != key@ {
                    let i = old_keys.index_of(k);
                    assert(old_keys[i] == k);
                    if i < at {
                        assert(new_keys[i] == k);
                    } else {
                        assert(new_keys[i + shift] == k);
                    }
                }
                if k == key@ {
                    assert(new_keys.contains(k));
                }
            }
            assert forall|k: Seq<char>| #[trigger] after@.contains_key(k) implies after@[k]
                == before@.insert(key@, value@)[k] by {
                let i = new_keys.index_of(k);
                assert(new_keys[i] == k);
                after.lemma_at(i);
                if i < at {
                    before.lemma_at(i);
                    lemma_precedes_irreflexive(key@);
                } else if i > at {
                    before.lemma_at(i - shift);
                    lemma_precedes_irreflexive(key@);
                }
            }
            assert(after@ =~= before@.insert(key@, value@));
        }
        self.entries = entries;
    }

    /// Takes the record under `key` away and tells whether there was one.
    pub fn remove(&mut self, key: &str) -> (r: bool)
        ensures
            r == old(self)@.contains_key(key@),
            final(self)@ == old(self)@.remove(key@),
    {
        proof {
            use_type_invariant(&*self);
        }
        let ghost before = *self;
        match self.position(key) {
            None => {
                assert(before@ =~= before@.remove(key@));
                false
            },
            Some(at) => {
                let mut entries: Vec<Entry<V>> = Vec::new();
                std::mem::swap(&mut entries, &mut self.entries);
                let removed = entries.remove(at);
                let ghost after = Table { entries };
                proof {
                    let old_keys = before.keys();
                    let new_keys = after.keys();
                    assert(new_keys.len() == old_keys.len() - 1);
                    assert(old_keys[at as int] == key@);
                    assert(old_keys.contains(key@));
                    assert forall|i: int| 0 <= i < at implies #[trigger] new_keys[i] == old_keys[i]
                        && after.record(i) == before.record(i) by {}
                    assert forall|i: int| at <= i < new_keys.len() implies #[trigger] new_keys[i]
                        == old_keys[i + 1] && after.record(i) == before.record(i + 1) by {}
                    assert forall|i: int, j: int| 0 <= i < j < new_keys.len() implies precedes(
                        #[trigger] new_keys[i],
                        #[trigger] new_keys[j],
                    ) by {
                        let a = if i < at {
                            i
                        } else {
                            i + 1
                        };
                        let b = if j < at {
                            j
                        } else {
                            j + 1
                        };
                        assert(precedes(old_keys[a], old_keys[b]));
                    }
                    assert forall|k: Seq<char>| #[trigger]
                        after@.contains_key(k) <==> before@.contains_key(k) && k != key@ by {
                        if after@.contains_key(k) {
                            let i = new_keys.index_of(k);
                            let a = if i < at {
                                i
                            } else {
                                i + 1
                            };
                            assert(old_keys[a] == k);
                            assert(old_keys.contains(k));
                            if k == key@ {
                                lemma_ascending_unique(old_keys, a, at as int);
                            }
                        }
                        if before@.contains_key(k) && k != key@ {
                            let i = old_keys.index_of(k);
                            assert(old_keys[i] == k);
                            if i < at {
                                assert(new_keys[i] == k);
                            } else {
                                assert(new_keys[i - 1] == k);
                            }
                        }
                    }
                    assert forall|k: Seq<char>| #[trigger] after@.contains_key(k) implies after@[k]
                        == before@[k] by {
                        let i = new_keys.index_of(k);
                        assert(new_keys[i] == k);
                        after.lemma_at(i);
                        if i < at {
                            before.lemma_at(i);
                        } else {
                            before.lemma_at(i + 1);
                        }
                    }
                    assert(after@ =~= before@.remove(key@));
                }
                self.entries = entries;
                true
            },
        }
    }
}

impl<V: Record> Table<V> {
    /// A copy of the table.
    pub fn copied(&self) -> (r: Table<V>)
        ensures
            r@ == self@,
            r.keys() == self.keys(),
    {
        proof {
            use_type_invariant(self);
        }
        let mut entries: Vec<Entry<V>> = Vec::new();
        let mut i: usize = 0;
        while i < self.entries.len()
            invariant
                i <= self.entries@.len(),
                entries@.len() == i,
                forall|j: int|
                    0 <= j < i ==> (#[trigger] entries@[j]).key@ == self.entries@[j].key@
                        && entries@[j].value@ == self.entries@[j].value@,
            decreases self.entries@.len() - i,
        {
            let entry = &self.entries[i];
            entries.push(Entry { key: entry.key.clone(), value: entry.value.copied() });
            i += 1;
        }
        proof {
            let r = Table { entries };
            assert(r.keys() =~= self.keys());
            assert forall|k: Seq<char>| #[trigger] r@.contains_key(k) implies r@[k] == self@[k] by {
                let at = self.keys().index_of(k);
                assert(r.record(at) == self.record(at));
            }
            assert(r@ =~= self@);
        }
        Table { entries }
    }
}

/// The records of a finite map in the order of their keys are the records of the map.
pub proof fn lemma_values_of<V>(map: Map<Seq<char>, V>)
    requires
        map.dom().finite(),
    ensures
        forall|i: int|
            0 <= i < values_of(map).len() ==> map.contains_key(keys_of(map)[i])
                && #[trigger] values_of(map)[i] == map[keys_of(map)[i]],
        forall|key: Seq<char>| #[trigger]
            map.contains_key(key) ==> values_of(map).contains(map[key]),
{
    lemma_keys_exist(map);
    let keys = keys_of(map);
    let values = values_of(map);
    assert(lists_keys(keys, map));
    assert forall|i: int| 0 <= i < values.len() implies map.contains_key(keys[i])
        && #[trigger] values[i] == map[keys[i]] by {
        assert(keys.contains(keys[i]));
    }
    assert forall|key: Seq<char>| #[trigger] map.contains_key(key) implies values.contains(
        map[key],
    ) by {
        assert(keys.contains(key));
        let i = choose|i: int| 0 <= i < keys.len() && keys[i] == key;
        assert(values[i] == map[key]);
    }
}

} // verus!
