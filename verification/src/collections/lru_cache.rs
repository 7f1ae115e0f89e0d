//! A cache of bounded size that gives up the entry that was used longest
//! ago: a list of the entries, the one used last at the front, and a table
//! from each key to its node in the list.

use crate::collections::linked_list::LinkedList;
use crate::collections::node::Ptr;
use std::collections::HashMap;
use vstd::prelude::*;

verus! {

/// Whether an entry of `entries` has the key `key`.
pub open spec fn has_key<V>(entries: Seq<(u64, V)>, key: u64) -> bool {
    exists|i: int| 0 <= i < entries.len() && (#[trigger] entries[i]).0 == key
}

/// The place of an entry of `entries` with the key `key`.
pub open spec fn key_place<V>(entries: Seq<(u64, V)>, key: u64) -> int {
    choose|i: int| 0 <= i < entries.len() && (#[trigger] entries[i]).0 == key
}

/// Whether no two entries of `entries` have the same key.
pub open spec fn keys_distinct<V>(entries: Seq<(u64, V)>) -> bool {
    forall|i: int, j: int|
        0 <= i < entries.len() && 0 <= j < entries.len() && i != j ==> (#[trigger] entries[i]).0 != (
        #[trigger] entries[j]).0
}

/// The entries after the entry at `place` was used: it stands at the
/// front, with the value `value`, the others behind it in their order.
pub open spec fn raised<V>(entries: Seq<(u64, V)>, place: int, value: V) -> Seq<(u64, V)> {
    seq![(entries[place].0, value)] + entries.remove(place)
}

/// Whether `table` holds the keys of `entries` and no others, each with the
/// pointer to the node of its entry, `order` being the indices of the nodes
/// of the entries.
pub open spec fn indexed<V>(table: Map<u64, Ptr>, entries: Seq<(u64, V)>, order: Seq<int>) -> bool {
    &&& forall|i: int|
        0 <= i < entries.len() ==> {
            &&& table.contains_key((#[trigger] entries[i]).0)
            &&& table[entries[i].0] == Ptr(order[i] as u32)
        }
    &&& forall|key: u64| #[trigger] table.contains_key(key) ==> has_key(entries, key)
}

/// A cache of at most `capacity` entries, each a key and a value.
pub struct LruCache<V> {
    table: HashMap<u64, Ptr>,
    list: LinkedList<(u64, V)>,
    capacity: u32,
}

impl<V> View for LruCache<V> {
    type V = Seq<(u64, V)>;

    /// The entries, the one used last first.
    closed spec fn view(&self) -> Seq<(u64, V)> {
        self.list@
    }
}

impl<V> LruCache<V> {
    /// The number of entries that the cache keeps at most.
    pub closed spec fn spec_capacity(&self) -> nat {
        self.capacity as nat
    }

    /// The list is valid and leaves no node outside. The table holds the
    /// keys of the entries and no others, each with the pointer to the node
    /// of its entry. The cache holds no more entries than its capacity.
    pub closed spec fn wf(&self) -> bool {
        &&& self.list.wf()
        &&& self.list.tight()
        &&& self.list@.len() <= self.capacity
        &&& indexed(self.table@, self.list@, self.list.spec_order())
    }

    /// A valid cache holds each key once, and no more entries than its
    /// capacity.
    pub proof fn lemma_wf_view(&self)
        requires
            self.wf(),
        ensures
            keys_distinct(self@),
            self@.len() <= self.spec_capacity(),
    {
        assert forall|i: int, j: int|
            0 <= i < self@.len() && 0 <= j < self@.len() && i != j implies (#[trigger] self@[i]).0
            != (#[trigger] self@[j]).0 by {
            self.list.lemma_view();
            self.list.lemma_place(i);
            self.list.lemma_place(j);
        }
    }

    /// In a valid cache the table holds a key just where an entry has it,
    /// and then the pointer to the node of that entry.
    proof fn lemma_table(&self, key: u64)
        requires
            self.wf(),
        ensures
            self.table@.contains_key(key) == has_key(self.list@, key),
            has_key(self.list@, key) ==> {
                let place = key_place(self.list@, key);
                let node = self.table@[key];
                &&& 0 <= place < self.list@.len()
                &&& self.list@[place].0 == key
                &&& self.list.contains(node)
                &&& self.list.place_of(node) == place
                &&& node.0 < self.list.spec_memory().len()
                &&& self.list.spec_memory()[node.0 as int].data == Some(self.list@[place])
            },
    {
        if has_key(self.list@, key) {
            let place = key_place(self.list@, key);
            self.list.lemma_view();
            self.list.lemma_place(place);
            self.list.lemma_neighbours(place);
            assert(self.table@.contains_key(self.list@[place].0));
        }
    }

    /// An empty cache that keeps up to `capacity` entries, counted modulo
    /// 2^32.
    pub fn new(capacity: usize) -> (cache: Self)
        ensures
            cache.wf(),
            cache@ == Seq::<(u64, V)>::empty(),
            cache.spec_capacity() == capacity as int % 0x1_0000_0000,
    {
        let wide: u64 = capacity as u64;
        let kept: u64 = wide % 0x1_0000_0000;
        Self { table: HashMap::new(), list: LinkedList::new(), capacity: kept as u32 }
    }

    /// The number of entries.
    pub fn len(&self) -> (n: usize)
        requires
            self.wf(),
        ensures
            n == self@.len(),
    {
        self.list.len()
    }

    /// The value of the entry with the key `key`, if there is one; the
    /// entry keeps its place.
    pub fn lookup(&self, key: &u64) -> (found: Option<&V>)
        requires
            self.wf(),
        ensures
            found == if has_key(self@, *key) {
                Some(&self@[key_place(self@, *key)].1)
            } else {
                None
            },
    {
        proof {
            self.lemma_table(*key);
        }
        match self.table.get(key) {
            Some(node) => match self.list.get(*node) {
                Some(entry) => match &entry.data {
                    Some(pair) => Some(&pair.1),
                    None => None,
                },
                None => None,
            },
            None => None,
        }
    }

    /// What the table and the list of a valid cache are after the entry at
    /// `place` went to the front of the list and the table got the pointer
    /// to the new front for its key: those of a valid cache.
    proof fn lemma_raised(
        &self,
        before: &Self,
        middle: &LinkedList<(u64, V)>,
        place: int,
        value: V,
        front: Ptr,
    )
        requires
            before.wf(),
            0 <= place < before.list@.len(),
            middle.wf(),
            middle@ == before.list@.remove(place),
            before.list@.len() >= 2 ==> middle.keeps_nodes_but(
                &before.list,
                before.table@[before.list@[place].0],
                place,
            ),
            self.list.wf(),
            self.list.tight(),
            self.list@ == raised(before.list@, place, value),
            self.list.keeps_nodes_of(middle, 0, 1),
            self.list.contains(front),
            self.list.place_of(front) == 0,
            self.table@ == before.table@.insert(before.list@[place].0, front),
            self.capacity == before.capacity,
        ensures
            self.wf(),
    {
        let key = before.list@[place].0;
        let entries = before.list@;
        before.lemma_wf_view();
        before.list.lemma_view();
        middle.lemma_view();
        self.list.lemma_view();
        self.list.lemma_contains(front);
        assert forall|i: int| 0 <= i < self.list@.len() implies {
            &&& self.table@.contains_key((#[trigger] self.list@[i]).0)
            &&& self.table@[self.list@[i].0] == Ptr(self.list.spec_order()[i] as u32)
        } by {
            if i > 0 {
                let from: int = if i - 1 < place {
                    i - 1
                } else {
                    i
                };
                assert(self.list@[i] == entries[from]);
                assert(entries[from].0 != entries[place].0);
                let node = Ptr(before.list.spec_order()[from] as u32);
                before.list.lemma_place(from);
                before.list.lemma_place(place);
                assert(before.table@[entries[from].0] == node);
                assert(middle.contains(node) && middle.place_of(node) == i - 1);
                assert(self.list.contains(node) && self.list.place_of(node) == i);
                self.list.lemma_contains(node);
            }
        }
        assert forall|other: u64| #[trigger] self.table@.contains_key(other) implies has_key(
            self.list@,
            other,
        ) by {
            if other == key {
                assert(self.list@[0].0 == key);
            } else {
                assert(before.table@.contains_key(other));
                let from = key_place(entries, other);
                let to: int = if from < place {
                    from + 1
                } else {
                    from
                };
                assert(self.list@[to] == entries[from]);
            }
        }
    }

    /// Moves the entry with the key `key`, whose node is `node`, to the
    /// front, with the value `val` where one is given.
    fn raise_key(&mut self, key: u64, node: Ptr, val: Option<V>)
        requires
            old(self).wf(),
            old(self).table@.contains_key(key),
            old(self).table@[key] == node,
        ensures
            final(self).wf(),
            final(self).spec_capacity() == old(self).spec_capacity(),
            final(self)@ == raised(
                old(self)@,
                key_place(old(self)@, key),
                match val {
                    Some(value) => value,
                    None => old(self)@[key_place(old(self)@, key)].1,
                },
            ),
    {
        proof {
            self.lemma_table(key);
        }
        let ghost place = key_place(self@, key);
        let taken = self.list.remove_at(node);
        let ghost middle = self.list;
        let (kept_key, old_value) = taken.unwrap();
        let value = match val {
            Some(value) => value,
            None => old_value,
        };
        self.list.push_front((kept_key, value));
        let front = self.list.front();
        self.table.insert(key, front);
        proof {
            assert(old(self).list@.len() == 1 ==> old(self).list@.remove(place)
                =~= Seq::<(u64, V)>::empty());
            self.lemma_raised(old(self), &middle, place, value, front);
        }
    }

    /// Puts the value `val` under the key `key` and makes the entry the one
    /// used last. A key that the cache holds gets the new value; for a new
    /// key the entry used longest ago goes where the cache is full.
    pub fn put(&mut self, key: u64, val: V)
        requires
            old(self).wf(),
            old(self).spec_capacity() >= 1,
        ensures
            final(self).wf(),
            final(self).spec_capacity() == old(self).spec_capacity(),
            final(self)@ == if has_key(old(self)@, key) {
                raised(old(self)@, key_place(old(self)@, key), val)
            } else if old(self)@.len() >= old(self).spec_capacity() {
                seq![(key, val)] + old(self)@.drop_last()
            } else {
                seq![(key, val)] + old(self)@
            },
    {
        proof {
            self.lemma_table(key);
        }
        let found = match self.table.get(&key) {
            Some(node) => Some(*node),
            None => None,
        };
        match found {
            Some(node) => {
                self.raise_key(key, node, Some(val));
            },
            None => {
                if self.list.len() >= self.capacity as usize {
                    self.evict();
                }
                let ghost before = *self;
                proof {
                    self.list.lemma_tight_room();
                }
                self.list.push_front((key, val));
                let front = self.list.front();
                self.table.insert(key, front);
                proof {
                    self.lemma_added(&before, key, val, front);
                }
            },
        }
    }

    /// Takes the entry used longest ago out of a cache that is not empty.
    fn evict(&mut self)
        requires
            old(self).wf(),
            old(self)@.len() >= 1,
        ensures
            final(self).wf_but_full(),
            final(self).capacity == old(self).capacity,
            final(self)@ == old(self)@.drop_last(),
            final(self).list.has_room(),
    {
        let rear = self.list.rear();
        proof {
            self.lemma_wf_view();
            self.list.lemma_view();
            self.list.lemma_contains(rear);
            self.list.lemma_neighbours(self.list@.len() - 1);
        }
        let last_key = match self.list.get(rear) {
            Some(entry) => match &entry.data {
                Some(pair) => pair.0,
                None => 0,
            },
            None => 0,
        };
        assert(last_key == self.list@.last().0);
        self.table.remove(&last_key);
        self.list.pop_rear();
        proof {
            let entries = old(self).list@;
            let last = entries.len() - 1;
            self.list.lemma_view();
            assert forall|i: int| 0 <= i < self.list@.len() implies {
                &&& self.table@.contains_key((#[trigger] self.list@[i]).0)
                &&& self.table@[self.list@[i].0] == Ptr(self.list.spec_order()[i] as u32)
            } by {
                assert(self.list@[i] == entries[i]);
                assert(entries[i].0 != entries[last].0);
                let node = Ptr(old(self).list.spec_order()[i] as u32);
                old(self).list.lemma_place(i);
                assert(self.list.contains(node) && self.list.place_of(node) == i);
                self.list.lemma_contains(node);
            }
            assert forall|other: u64| #[trigger] self.table@.contains_key(other) implies has_key(
                self.list@,
                other,
            ) by {
                assert(old(self).table@.contains_key(other));
                let from = key_place(entries, other);
                assert(from != last);
                assert(self.list@[from] == entries[from]);
            }
        }
    }

    /// Whether the cache is valid but for the number of its entries, which
    /// is below its capacity.
    closed spec fn wf_but_full(&self) -> bool {
        &&& self.list.wf()
        &&& self.list.tight()
        &&& self.list@.len() < self.capacity
        &&& indexed(self.table@, self.list@, self.list.spec_order())
    }

    /// What the table and the list of a cache with room are after an entry
    /// with a new key went to the front of the list and its key into the
    /// table, with the pointer to the new front: those of a valid cache.
    proof fn lemma_added(&self, before: &Self, key: u64, value: V, front: Ptr)
        requires
            before.wf_but_full(),
            !before.table@.contains_key(key),
            self.list.wf(),
            self.list.tight(),
            self.list@ == seq![(key, value)] + before.list@,
            self.list.keeps_nodes_of(&before.list, 0, 1),
            self.list.contains(front),
            self.list.place_of(front) == 0,
            self.table@ == before.table@.insert(key, front),
            self.capacity == before.capacity,
        ensures
            self.wf(),
    {
        let entries = before.list@;
        before.list.lemma_view();
        self.list.lemma_view();
        self.list.lemma_contains(front);
        assert forall|i: int| 0 <= i < self.list@.len() implies {
            &&& self.table@.contains_key((#[trigger] self.list@[i]).0)
            &&& self.table@[self.list@[i].0] == Ptr(self.list.spec_order()[i] as u32)
        } by {
            if i > 0 {
                assert(self.list@[i] == entries[i - 1]);
                assert(before.table@.contains_key(entries[i - 1].0));
                let node = Ptr(before.list.spec_order()[i - 1] as u32);
                before.list.lemma_place(i - 1);
                assert(self.list.contains(node) && self.list.place_of(node) == i);
                self.list.lemma_contains(node);
            }
        }
        assert forall|other: u64| #[trigger] self.table@.contains_key(other) implies has_key(
            self.list@,
            other,
        ) by {
            if other == key {
                assert(self.list@[0].0 == key);
            } else {
                let from = key_place(entries, other);
                assert(self.list@[from + 1] == entries[from]);
            }
        }
    }

    /// Takes the entry with the key `key` out of the cache and hands out
    /// its value, if there is one.
    pub fn remove(&mut self, key: &u64) -> (removed: Option<V>)
        requires
            old(self).wf(),
        ensures
            final(self).wf(),
            final(self).spec_capacity() == old(self).spec_capacity(),
            has_key(old(self)@, *key) ==> removed == Some(
                old(self)@[key_place(old(self)@, *key)].1,
            ) && final(self)@ == old(self)@.remove(key_place(old(self)@, *key)),
            !has_key(old(self)@, *key) ==> removed.is_none() && final(self)@ == old(self)@,
    {
        proof {
            self.lemma_table(*key);
            self.lemma_wf_view();
        }
        let found = match self.table.get(key) {
            Some(node) => Some(*node),
            None => None,
        };
        match found {
            Some(node) => {
                let ghost place = key_place(self@, *key);
                let taken = self.list.remove_at(node);
                let (kept_key, value) = taken.unwrap();
                self.table.remove(&kept_key);
                proof {
                    let entries = old(self).list@;
                    assert(entries.len() == 1 ==> entries.remove(place) =~= Seq::<
                        (u64, V),
                    >::empty());
                    self.list.lemma_view();
                    old(self).list.lemma_view();
                    assert forall|i: int| 0 <= i < self.list@.len() implies {
                        &&& self.table@.contains_key((#[trigger] self.list@[i]).0)
                        &&& self.table@[self.list@[i].0] == Ptr(
                            self.list.spec_order()[i] as u32,
                        )
                    } by {
                        let from: int = if i < place {
                            i
                        } else {
                            i + 1
                        };
                        assert(self.list@[i] == entries[from]);
                        assert(entries[from].0 != entries[place].0);
                        let other = Ptr(old(self).list.spec_order()[from] as u32);
                        old(self).list.lemma_place(from);
                        old(self).list.lemma_place(place);
                        assert(self.list.contains(other) && self.list.place_of(other) == i);
                        self.list.lemma_contains(other);
                    }
                    assert forall|other: u64| #[trigger]
                        self.table@.contains_key(other) implies has_key(self.list@, other) by {
                        assert(old(self).table@.contains_key(other));
                        let from = key_place(entries, other);
                        let to: int = if from < place {
                            from
                        } else {
                            from - 1
                        };
                        assert(self.list@[to] == entries[from]);
                    }
                }
                Some(value)
            },
            None => None,
        }
    }

    /// The value of the first entry of a cache that is not empty.
    fn front_value(&self) -> (found: Option<&V>)
        requires
            self.wf(),
            self@.len() >= 1,
        ensures
            found == Some(&self@[0].1),
    {
        let front = self.list.front();
        proof {
            self.list.lemma_view();
            self.list.lemma_contains(front);
            self.list.lemma_neighbours(0);
        }
        match self.list.get(front) {
            Some(entry) => match &entry.data {
                Some(pair) => Some(&pair.1),
                None => None,
            },
            None => None,
        }
    }

    /// The value of the entry with the key `key`, if there is one; the
    /// entry becomes the one used last.
    pub fn get(&mut self, key: &u64) -> (found: Option<&V>)
        requires
            old(self).wf(),
        ensures
            final(self).wf(),
            final(self).spec_capacity() == old(self).spec_capacity(),
            has_key(old(self)@, *key) ==> found == Some(
                &old(self)@[key_place(old(self)@, *key)].1,
            ) && final(self)@ == raised(
                old(self)@,
                key_place(old(self)@, *key),
                old(self)@[key_place(old(self)@, *key)].1,
            ),
            !has_key(old(self)@, *key) ==> found.is_none() && final(self)@ == old(self)@,
    {
        proof {
            self.lemma_table(*key);
        }
        let node = match self.table.get(key) {
            Some(node) => Some(*node),
            None => None,
        };
        match node {
            Some(node) => {
                self.raise_key(*key, node, None);
                self.front_value()
            },
            None => None,
        }
    }

    /// The value of the entry with the key `key`, to change it, if there
    /// is one; the entry becomes the one used last.
    pub fn get_mut(&mut self, key: &u64) -> (found: Option<&mut V>)
        requires
            old(self).wf(),
        ensures
            final(self).wf(),
            final(self).spec_capacity() == old(self).spec_capacity(),
            match found {
                Some(value) => {
                    &&& has_key(old(self)@, *key)
                    &&& *value == old(self)@[key_place(old(self)@, *key)].1
                    &&& final(self)@ == raised(
                        old(self)@,
                        key_place(old(self)@, *key),
                        *final(value),
                    )
                },
                None => !has_key(old(self)@, *key) && final(self)@ == old(self)@,
            },
    {
        proof {
            self.lemma_table(*key);
        }
        let node = match self.table.get(key) {
            Some(node) => Some(*node),
            None => None,
        };
        match node {
            Some(node) => {
                self.raise_key(*key, node, None);
                let front = self.list.front();
                proof {
                    let entries = self.list@;
                    let table = self.table@;
                    let order = self.list.spec_order();
                    assert(entries[0].0 == *key);
                    assert forall|value: V| #[trigger]
                        indexed(table, entries.update(0, (*key, value)), order) by {
                        let changed = entries.update(0, (*key, value));
                        assert forall|i: int| 0 <= i < changed.len() implies {
                            &&& table.contains_key((#[trigger] changed[i]).0)
                            &&& table[changed[i].0] == Ptr(order[i] as u32)
                        } by {
                            assert(changed[i].0 == entries[i].0);
                        }
                        assert forall|other: u64| #[trigger]
                            table.contains_key(other) implies has_key(changed, other) by {
                            let at = key_place(entries, other);
                            assert(changed[at].0 == entries[at].0);
                        }
                    }
                    assert forall|value: V| #[trigger]
                        entries.update(0, (*key, value)) =~= raised(
                            old(self)@,
                            key_place(old(self)@, *key),
                            value,
                        ) by {}
                }
                let pair = self.list.value_mut(front);
                Some(&mut pair.1)
            },
            None => None,
        }
    }
}

} // verus!
