//! A doubly linked list whose nodes live in a vector.

use crate::collections::node::{null, Node, Ptr, NULL_INDEX};
use vstd::prelude::*;

verus! {

/// The side of a node on which a new node goes into the list.
#[derive(Copy, Clone, PartialEq, Eq, Structural, Debug)]
pub enum InsertDirection {
    Left,
    Right,
}

impl InsertDirection {
    /// The index of the pointer that points to this side: 0 for `Left`, 1
    /// for `Right`.
    pub fn as_usize(self) -> (index: usize)
        ensures
            index == match self {
                InsertDirection::Left => 0usize,
                InsertDirection::Right => 1usize,
            },
    {
        match self {
            InsertDirection::Left => 0,
            InsertDirection::Right => 1,
        }
    }
}

/// The place behind `place` in a ring of `len` places.
pub open spec fn place_after(place: int, len: int) -> int {
    if place + 1 >= len {
        0
    } else {
        place + 1
    }
}

/// The place before `place` in a ring of `len` places.
pub open spec fn place_before(place: int, len: int) -> int {
    if place <= 0 {
        len - 1
    } else {
        place - 1
    }
}

/// Whether the nodes at the indices `order` form a ring in `memory`: each
/// holds a value, its right pointer points to the next and its left pointer
/// to the one before, the last and the first being neighbours.
#[verifier::opaque]
pub open spec fn links_ring<T>(memory: Seq<Node<T, 2>>, order: Seq<int>) -> bool {
    forall|i: int|
        0 <= i < order.len() ==> {
            &&& 0 <= #[trigger] order[i] < memory.len()
            &&& memory[order[i]].data.is_some()
            &&& memory[order[i]].children[1].0 == order[place_after(i, order.len() as int)]
            &&& memory[order[i]].children[0].0 == order[place_before(i, order.len() as int)]
        }
}

/// Whether the nodes at the indices `spare` form a chain in `memory`: the
/// right pointer of each points to the next, that of the last nowhere.
#[verifier::opaque]
pub open spec fn links_chain<T>(memory: Seq<Node<T, 2>>, spare: Seq<int>) -> bool {
    forall|i: int|
        0 <= i < spare.len() ==> {
            &&& 0 <= #[trigger] spare[i] < memory.len()
            &&& memory[spare[i]].children[1] == if i + 1 < spare.len() {
                Ptr(spare[i + 1] as u32)
            } else {
                null()
            }
        }
}

/// Whether no index stands twice in `order` or in `spare`, or in both.
#[verifier::opaque]
pub open spec fn apart(order: Seq<int>, spare: Seq<int>) -> bool {
    &&& order.no_duplicates()
    &&& spare.no_duplicates()
    &&& forall|i: int, j: int|
        0 <= i < order.len() && 0 <= j < spare.len() ==> #[trigger] order[i]
            != #[trigger] spare[j]
}

/// An index that is put into a run of distinct indices that does not hold
/// it leaves the indices distinct.
pub proof fn lemma_insert_distinct(order: Seq<int>, at: int, index: int)
    requires
        order.no_duplicates(),
        !order.contains(index),
        0 <= at <= order.len(),
    ensures
        order.insert(at, index).no_duplicates(),
        forall|i: int|
            0 <= i < order.len() + 1 ==> #[trigger] order.insert(at, index)[i] == if i < at {
                order[i]
            } else if i == at {
                index
            } else {
                order[i - 1]
            },
{
    let longer = order.insert(at, index);
    assert forall|i: int, j: int| 0 <= i < longer.len() && 0 <= j < longer.len() && i
        != j implies longer[i] != longer[j] by {
        let a = if i < at {
            i
        } else {
            i - 1
        };
        let b = if j < at {
            j
        } else {
            j - 1
        };
        if i != at && j != at {
            assert(order[a] != order[b]);
        } else if i == at {
            assert(order.contains(order[b]));
        } else {
            assert(order.contains(order[a]));
        }
    }
}

/// An index that is taken out of a run of distinct indices leaves the
/// indices distinct, and is not among them any more.
pub proof fn lemma_remove_distinct(order: Seq<int>, at: int)
    requires
        order.no_duplicates(),
        0 <= at < order.len(),
    ensures
        order.remove(at).no_duplicates(),
        !order.remove(at).contains(order[at]),
        forall|i: int|
            0 <= i < order.len() - 1 ==> #[trigger] order.remove(at)[i] == if i < at {
                order[i]
            } else {
                order[i + 1]
            },
{
    let shorter = order.remove(at);
    assert forall|i: int, j: int| 0 <= i < shorter.len() && 0 <= j < shorter.len() && i
        != j implies shorter[i] != shorter[j] by {
        let a = if i < at {
            i
        } else {
            i + 1
        };
        let b = if j < at {
            j
        } else {
            j + 1
        };
        assert(order[a] != order[b]);
    }
    if shorter.contains(order[at]) {
        let i = shorter.index_of(order[at]);
        let a = if i < at {
            i
        } else {
            i + 1
        };
        assert(order[a] == order[at]);
    }
}

/// Distinct indices below a bound are at most as many as the bound.
pub proof fn lemma_distinct_below(indices: Seq<int>, bound: int)
    requires
        indices.no_duplicates(),
        forall|i: int| 0 <= i < indices.len() ==> 0 <= #[trigger] indices[i] < bound,
    ensures
        indices.len() <= if bound < 0 {
            0
        } else {
            bound
        },
    decreases bound,
{
    if indices.len() > 0 {
        assert(0 <= indices[0] < bound);
        let top = bound - 1;
        if indices.contains(top) {
            let at = indices.index_of(top);
            lemma_remove_distinct(indices, at);
            let rest = indices.remove(at);
            assert forall|i: int| 0 <= i < rest.len() implies 0 <= #[trigger] rest[i] < top by {
                let a = if i < at {
                    i
                } else {
                    i + 1
                };
                assert(0 <= indices[a] < bound);
                assert(rest.contains(rest[i]));
            }
            lemma_distinct_below(rest, top);
        } else {
            assert forall|i: int| 0 <= i < indices.len() implies 0 <= #[trigger] indices[i]
                < top by {
                assert(indices.contains(indices[i]));
            }
            lemma_distinct_below(indices, top);
        }
    }
}

/// Where an index is put into a run of distinct indices, the indices that
/// were there keep their order: those from the place of the new index on
/// stand one place further back.
pub proof fn lemma_insert_places(order: Seq<int>, at: int, index: int, other: int)
    requires
        order.no_duplicates(),
        !order.contains(index),
        0 <= at <= order.len(),
        order.contains(other),
    ensures
        order.insert(at, index).contains(other),
        order.insert(at, index).index_of(other) == if order.index_of(other) >= at {
            order.index_of(other) + 1
        } else {
            order.index_of(other)
        },
        order.insert(at, index).contains(index),
        order.insert(at, index).index_of(index) == at,
{
    let longer = order.insert(at, index);
    lemma_insert_distinct(order, at, index);
    let was = order.index_of(other);
    let now = if was >= at {
        was + 1
    } else {
        was
    };
    assert(longer[now] == other);
    assert(longer[at] == index);
    let found = longer.index_of(other);
    assert(longer[found] == other);
    let found_new = longer.index_of(index);
    assert(longer[found_new] == index);
}

/// Where an index is taken out of a run of distinct indices, the others
/// keep their order: those behind the place of the index stand one place
/// further to the front.
pub proof fn lemma_remove_places(order: Seq<int>, at: int, other: int)
    requires
        order.no_duplicates(),
        0 <= at < order.len(),
        order.contains(other),
        other != order[at],
    ensures
        order.remove(at).contains(other),
        order.remove(at).index_of(other) == if order.index_of(other) > at {
            order.index_of(other) - 1
        } else {
            order.index_of(other)
        },
{
    let shorter = order.remove(at);
    lemma_remove_distinct(order, at);
    let was = order.index_of(other);
    assert(order[was] == other);
    let now = if was > at {
        was - 1
    } else {
        was
    };
    assert(shorter[now] == other);
    let found = shorter.index_of(other);
    assert(shorter[found] == other);
}

/// A chain stays a chain where none of its nodes changes.
pub proof fn lemma_chain_kept<T>(before: Seq<Node<T, 2>>, after: Seq<Node<T, 2>>, spare: Seq<int>)
    requires
        links_chain(before, spare),
        after.len() >= before.len(),
        forall|i: int| 0 <= i < spare.len() ==> after[#[trigger] spare[i]] == before[spare[i]],
    ensures
        links_chain(after, spare),
{
    reveal(links_chain);
}

/// A node that is linked in between a node of a ring and its neighbour on
/// one side is part of the ring, at the place between them.
#[verifier::rlimit(40)]
pub proof fn lemma_insert_ring<T>(
    before: Seq<Node<T, 2>>,
    after: Seq<Node<T, 2>>,
    order: Seq<int>,
    place: int,
    side: int,
    added: int,
)
    requires
        links_ring(before, order),
        order.no_duplicates(),
        !order.contains(added),
        0 <= place < order.len(),
        side == 0 || side == 1,
        0 <= added < before.len(),
        after.len() == before.len(),
        after[added].data.is_some(),
        ({
            let node = order[place];
            let next = order[if side == 0 {
                place_before(place, order.len() as int)
            } else {
                place_after(place, order.len() as int)
            }];
            &&& after[added].children[side].0 == next
            &&& after[added].children[1 - side].0 == node
            &&& after[node].data == before[node].data
            &&& after[node].children[side].0 == added
            &&& node != next ==> after[node].children[1 - side] == before[node].children[1 - side]
            &&& after[next].data == before[next].data
            &&& after[next].children[1 - side].0 == added
            &&& node != next ==> after[next].children[side] == before[next].children[side]
            &&& forall|i: int|
                0 <= i < before.len() && i != added && i != node && i != next ==> #[trigger] after[i]
                    == before[i]
        }),
    ensures
        links_ring(after, order.insert(place + side, added)),
{
    reveal(links_ring);
    let len = order.len() as int;
    let at = place + side;
    let longer = order.insert(at, added);
    let node = order[place];
    let next = order[if side == 0 {
        place_before(place, len)
    } else {
        place_after(place, len)
    }];
    lemma_insert_distinct(order, at, added);
    assert forall|i: int| 0 <= i < longer.len() implies {
        &&& 0 <= #[trigger] longer[i] < after.len()
        &&& after[longer[i]].data.is_some()
        &&& after[longer[i]].children[1].0 == longer[place_after(i, longer.len() as int)]
        &&& after[longer[i]].children[0].0 == longer[place_before(i, longer.len() as int)]
    } by {
        if i != at {
            let a = if i < at {
                i
            } else {
                i - 1
            };
            assert(0 <= order[a] < before.len());
            assert(order.contains(order[a]));
            assert(order[a] != node || a == place);
            let beside = if side == 0 {
                place_before(place, len)
            } else {
                place_after(place, len)
            };
            assert(order[a] != next || a == beside);
            assert(order[place_after(a, len)] == before[order[a]].children[1].0);
            assert(order[place_before(a, len)] == before[order[a]].children[0].0);
        }
    }
}

/// A node of a ring of at least two nodes whose neighbours are linked to
/// each other is out of the ring.
#[verifier::rlimit(40)]
pub proof fn lemma_remove_ring<T>(
    before: Seq<Node<T, 2>>,
    after: Seq<Node<T, 2>>,
    order: Seq<int>,
    place: int,
)
    requires
        links_ring(before, order),
        order.no_duplicates(),
        order.len() >= 2,
        0 <= place < order.len(),
        after.len() == before.len(),
        ({
            let left = order[place_before(place, order.len() as int)];
            let right = order[place_after(place, order.len() as int)];
            &&& after[left].data == before[left].data
            &&& after[left].children[1].0 == right
            &&& left != right ==> after[left].children[0] == before[left].children[0]
            &&& after[right].data == before[right].data
            &&& after[right].children[0].0 == left
            &&& left != right ==> after[right].children[1] == before[right].children[1]
            &&& forall|i: int|
                0 <= i < before.len() && i != left && i != right ==> #[trigger] after[i]
                    == before[i]
        }),
    ensures
        links_ring(after, order.remove(place)),
{
    reveal(links_ring);
    let len = order.len() as int;
    let shorter = order.remove(place);
    let left = order[place_before(place, len)];
    let right = order[place_after(place, len)];
    lemma_remove_distinct(order, place);
    assert forall|i: int| 0 <= i < shorter.len() implies {
        &&& 0 <= #[trigger] shorter[i] < after.len()
        &&& after[shorter[i]].data.is_some()
        &&& after[shorter[i]].children[1].0 == shorter[place_after(i, shorter.len() as int)]
        &&& after[shorter[i]].children[0].0 == shorter[place_before(i, shorter.len() as int)]
    } by {
        let a = if i < place {
            i
        } else {
            i + 1
        };
        assert(0 <= order[a] < before.len());
        assert(order[a] != left || a == place_before(place, len));
        assert(order[a] != right || a == place_after(place, len));
        assert(order[place_after(a, len)] == before[order[a]].children[1].0);
        assert(order[place_before(a, len)] == before[order[a]].children[0].0);
    }
}

/// A doubly linked list whose nodes live in a vector: the nodes of the list
/// form a ring through their pointers, and nodes that were freed wait in a
/// pool to be used again.
pub struct LinkedList<T> {
    memory: Vec<Node<T, 2>>,
    front: Ptr,
    rear: Ptr,
    pool: Ptr,
    len: u32,
    order: Ghost<Seq<int>>,
    spare: Ghost<Seq<int>>,
}

impl<T> View for LinkedList<T> {
    type V = Seq<T>;

    closed spec fn view(&self) -> Seq<T> {
        Seq::new(self.order@.len(), |i: int| self.memory@[self.order@[i]].data.unwrap())
    }
}

impl<T> LinkedList<T> {
    /// The indices of the nodes of the list, front first.
    pub closed spec fn spec_order(&self) -> Seq<int> {
        self.order@
    }

    /// The indices of the nodes of the pool, the next to be used first.
    pub closed spec fn spec_spare(&self) -> Seq<int> {
        self.spare@
    }

    /// The nodes, in the list or not.
    pub closed spec fn spec_memory(&self) -> Seq<Node<T, 2>> {
        self.memory@
    }

    /// Whether `node` points to a node of the list.
    pub open spec fn contains(&self, node: Ptr) -> bool {
        self.spec_order().contains(node.0 as int)
    }

    /// The place in the list of the node that `node` points to.
    pub open spec fn place_of(&self, node: Ptr) -> int {
        self.spec_order().index_of(node.0 as int)
    }

    /// Whether every pointer to a node of `before` points to the same node
    /// of this list, `shift` places further back from the place `from` on.
    pub open spec fn keeps_nodes_of(&self, before: &Self, from: int, shift: int) -> bool {
        forall|node: Ptr| #[trigger]
            before.contains(node) ==> self.contains(node) && self.place_of(node) == if before.place_of(
                node,
            ) >= from {
                before.place_of(node) + shift
            } else {
                before.place_of(node)
            }
    }

    /// Whether every pointer to a node of `before` but `gone` points to the
    /// same node of this list, one place further to the front behind the
    /// place `from`, and `gone` to no node of this list.
    pub open spec fn keeps_nodes_but(&self, before: &Self, gone: Ptr, from: int) -> bool {
        &&& !self.contains(gone)
        &&& forall|node: Ptr| #[trigger]
            before.contains(node) && node != gone ==> self.contains(node) && self.place_of(node)
                == if before.place_of(node) > from {
                before.place_of(node) - 1
            } else {
                before.place_of(node)
            }
    }

    /// Whether `node` points to a node that is neither in the list nor in
    /// the pool.
    pub open spec fn detached(&self, node: Ptr) -> bool {
        &&& node.0 < self.spec_memory().len()
        &&& !self.spec_order().contains(node.0 as int)
        &&& !self.spec_spare().contains(node.0 as int)
    }

    /// Every node has an index below that of the null pointer. The nodes of
    /// the list are distinct, hold a value each, and form a ring: the right
    /// pointer of each points to the next and the left pointer to the one
    /// before, the last and the first being neighbours. `front` and `rear`
    /// point to the first and the last, or nowhere in an empty list. The
    /// nodes of the pool are distinct, none of them in the list, and form a
    /// chain through their right pointers from `pool` on.
    pub closed spec fn wf(&self) -> bool {
        let order = self.order@;
        let spare = self.spare@;
        let memory = self.memory@;
        &&& memory.len() <= NULL_INDEX
        &&& self.len == order.len()
        &&& apart(order, spare)
        &&& links_ring(memory, order)
        &&& links_chain(memory, spare)
        &&& self.front == if order.len() == 0 {
            null()
        } else {
            Ptr(order[0] as u32)
        }
        &&& self.rear == if order.len() == 0 {
            null()
        } else {
            Ptr(order[order.len() - 1] as u32)
        }
        &&& self.pool == if spare.len() == 0 {
            null()
        } else {
            Ptr(spare[0] as u32)
        }
    }

    /// Whether every node is in the list or in the pool: none was taken
    /// with `allocate` and left outside.
    pub closed spec fn tight(&self) -> bool {
        self.memory@.len() == self.order@.len() + self.spare@.len()
    }

    /// Whether the list has a node to spare for one more value: one in the
    /// pool, or room for one more in the vector.
    pub open spec fn has_room(&self) -> bool {
        self.spec_spare().len() > 0 || self.spec_memory().len() < NULL_INDEX
    }

    /// A valid list in which every node is in the list or in the pool has a
    /// node to spare as long as it holds fewer values than there are
    /// pointers.
    pub proof fn lemma_tight_room(&self)
        requires
            self.wf(),
            self.tight(),
            self@.len() < NULL_INDEX,
        ensures
            self.has_room(),
    {
    }

    /// In a valid list the values are those of its nodes, front first, and
    /// the null pointer points to none of them.
    pub proof fn lemma_view(&self)
        requires
            self.wf(),
        ensures
            self@.len() == self.spec_order().len(),
            forall|i: int|
                0 <= i < self@.len() ==> #[trigger] self@[i] == self.spec_memory()[self.spec_order()[i]].data.unwrap(),
            !self.contains(null()),
            forall|i: int|
                0 <= i < self.spec_order().len() ==> 0 <= #[trigger] self.spec_order()[i]
                    < self.spec_memory().len(),
    {
        reveal(links_ring);
        reveal(apart);
        if self.contains(null()) {
            let i = self.spec_order().index_of(NULL_INDEX as int);
            assert(self.order@[i] < self.memory@.len());
        }
    }

    /// An empty list: no value, no node in the pool, and no node allocated.
    pub fn new() -> (list: Self)
        ensures
            list.tight(),
            list.wf(),
            list@ == Seq::<T>::empty(),
            list.has_room(),
            list.spec_order() == Seq::<int>::empty(),
            list.spec_spare() == Seq::<int>::empty(),
            list.spec_memory() == Seq::<Node<T, 2>>::empty(),
    {
        proof {
            reveal(links_ring);
            reveal(links_chain);
            reveal(apart);
        }
        let list = Self {
            memory: Vec::new(),
            front: Ptr::null(),
            rear: Ptr::null(),
            pool: Ptr::null(),
            len: 0,
            order: Ghost(Seq::empty()),
            spare: Ghost(Seq::empty()),
        };
        assert(list@ =~= Seq::<T>::empty());
        list
    }

    pub fn len(&self) -> (n: usize)
        requires
            self.wf(),
        ensures
            n == self@.len(),
    {
        self.len as usize
    }

    /// The pointer to the first node, or null in an empty list.
    pub fn front(&self) -> (node: Ptr)
        requires
            self.wf(),
        ensures
            self@.len() == 0 ==> node == null(),
            self@.len() > 0 ==> self.contains(node) && self.place_of(node) == 0,
    {
        proof {
            if self.order@.len() > 0 {
                self.lemma_place(0);
            }
        }
        self.front
    }

    /// The pointer to the last node, or null in an empty list.
    pub fn rear(&self) -> (node: Ptr)
        requires
            self.wf(),
        ensures
            self@.len() == 0 ==> node == null(),
            self@.len() > 0 ==> self.contains(node) && self.place_of(node) == self@.len() - 1,
    {
        proof {
            if self.order@.len() > 0 {
                self.lemma_place(self.order@.len() - 1);
            }
        }
        self.rear
    }

    /// The node at place `i` of a valid list is in the list, at place `i`.
    pub proof fn lemma_place(&self, i: int)
        requires
            self.wf(),
            0 <= i < self.spec_order().len(),
        ensures
            self.contains(Ptr(self.spec_order()[i] as u32)),
            self.place_of(Ptr(self.spec_order()[i] as u32)) == i,
            0 <= self.spec_order()[i] < NULL_INDEX,
    {
        reveal(links_ring);
        reveal(apart);
        let order = self.order@;
        assert(order[i] < self.memory@.len());
        assert(order.contains(order[i]));
        let found = order.index_of(order[i]);
        assert(order[found] == order[i]);
    }

    /// The pointers of the node at place `i` of a valid list point to the
    /// nodes at the places beside it.
    pub proof fn lemma_neighbours(&self, i: int)
        requires
            self.wf(),
            0 <= i < self.spec_order().len(),
        ensures
            0 <= self.spec_order()[i] < self.spec_memory().len(),
            self.spec_memory()[self.spec_order()[i]].data.is_some(),
            self.spec_memory()[self.spec_order()[i]].children[1].0 == self.spec_order()[place_after(
                i,
                self.spec_order().len() as int,
            )],
            self.spec_memory()[self.spec_order()[i]].children[0].0 == self.spec_order()[place_before(
                i,
                self.spec_order().len() as int,
            )],
            0 <= self.spec_order()[place_after(i, self.spec_order().len() as int)]
                < self.spec_memory().len(),
            0 <= self.spec_order()[place_before(i, self.spec_order().len() as int)]
                < self.spec_memory().len(),
    {
        reveal(links_ring);
        let order = self.order@;
        assert(0 <= order[place_after(i, order.len() as int)] < self.memory@.len());
        assert(0 <= order[place_before(i, order.len() as int)] < self.memory@.len());
    }

    /// A pointer to a node of a valid list points to the node at its place.
    pub proof fn lemma_contains(&self, node: Ptr)
        requires
            self.wf(),
            self.contains(node),
        ensures
            0 <= self.place_of(node) < self.spec_order().len(),
            self.spec_order()[self.place_of(node)] == node.0,
            node.0 < self.spec_memory().len(),
            node != null(),
    {
        reveal(links_ring);
        reveal(apart);
        let order = self.order@;
        let place = order.index_of(node.0 as int);
        assert(order[place] == node.0);
        assert(0 <= order[place] < self.memory@.len());
    }

    /// Takes a node for `item`: the next node of the pool, or a new one
    /// where the pool is empty. The node holds `item` and is neither in the
    /// list nor in the pool; both of its pointers are null.
    pub fn allocate(&mut self, item: T) -> (node: Ptr)
        requires
            old(self).wf(),
            old(self).has_room(),
        ensures
            final(self).wf(),
            final(self)@ == old(self)@,
            final(self).spec_order() == old(self).spec_order(),
            final(self).spec_spare() == if old(self).spec_spare().len() > 0 {
                old(self).spec_spare().drop_first()
            } else {
                old(self).spec_spare()
            },
            final(self).detached(node),
            final(self).spec_memory()[node.0 as int].data == Some(item),
            final(self).spec_memory().len() == if old(self).spec_spare().len() > 0 {
                old(self).spec_memory().len()
            } else {
                old(self).spec_memory().len() + 1
            },
            forall|i: int|
                0 <= i < old(self).spec_memory().len() && i != node.0
                    ==> #[trigger] final(self).spec_memory()[i] == old(self).spec_memory()[i],
    {
        proof {
            reveal(links_ring);
            reveal(links_chain);
            reveal(apart);
        }
        if self.pool.is_null() {
            self.memory.push(Node { data: Some(item), children: [Ptr::null(), Ptr::null()] });
            let node = Ptr((self.memory.len() - 1) as u32);
            proof {
                assert(self@ =~= old(self)@);
            }
            node
        } else {
            let reused_node = self.pool;
            let index = reused_node.as_usize();
            proof {
                assert(self.spare@[0] == index);
            }
            self.pool = self.memory[index].children[1];
            self.memory[index].set_data(item);
            self.memory[index].nullify();
            proof {
                let before = self.spare@;
                self.spare = Ghost(before.drop_first());
                assert forall|i: int| 0 <= i < self.order@.len() implies self.order@[i]
                    != index by {
                    assert(self.order@[i] != before[0]);
                }
                assert forall|j: int| 0 <= j < self.spare@.len() implies self.spare@[j]
                    != index by {
                    assert(self.spare@[j] == before[j + 1]);
                }
                assert(self@ =~= old(self)@);
            }
            reused_node
        }
    }

    /// Puts the node that `node` points to, which is neither in the list nor
    /// in the pool, into the pool, and hands out its value.
    pub fn free(&mut self, node: Ptr) -> (data: Option<T>)
        requires
            old(self).wf(),
            old(self).detached(node),
        ensures
            final(self).wf(),
            final(self)@ == old(self)@,
            final(self).spec_order() == old(self).spec_order(),
            final(self).spec_spare() == seq![node.0 as int] + old(self).spec_spare(),
            final(self).spec_memory().len() == old(self).spec_memory().len(),
            data == old(self).spec_memory()[node.0 as int].data,
            forall|i: int|
                0 <= i < old(self).spec_memory().len() && i != node.0
                    ==> #[trigger] final(self).spec_memory()[i] == old(self).spec_memory()[i],
    {
        proof {
            reveal(links_ring);
            reveal(links_chain);
            reveal(apart);
        }
        let index = node.as_usize();
        self.memory[index].children = [Ptr::null(), self.pool];
        self.pool = node;
        let data = self.memory[index].data.take();
        proof {
            let before = self.spare@;
            self.spare = Ghost(seq![index as int] + before);
            assert forall|j: int| 0 <= j < self.spare@.len() implies {
                &&& 0 <= #[trigger] self.spare@[j] < self.memory@.len()
                &&& self.memory@[self.spare@[j]].children[1] == if j + 1 < self.spare@.len() {
                    Ptr(self.spare@[j + 1] as u32)
                } else {
                    null()
                }
            } by {
                if j > 0 {
                    assert(self.spare@[j] == before[j - 1]);
                    assert(before[j - 1] != index);
                }
            }
            assert(self.spare@.no_duplicates()) by {
                assert forall|i: int, j: int|
                    0 <= i < self.spare@.len() && 0 <= j < self.spare@.len() && i
                        != j implies self.spare@[i] != self.spare@[j] by {
                    if i > 0 {
                        assert(self.spare@[i] == before[i - 1]);
                    }
                    if j > 0 {
                        assert(self.spare@[j] == before[j - 1]);
                    }
                }
            }
            assert forall|i: int, j: int|
                0 <= i < self.order@.len() && 0 <= j < self.spare@.len() implies #[trigger] self.order@[i]
                != #[trigger] self.spare@[j] by {
                if j > 0 {
                    assert(self.spare@[j] == before[j - 1]);
                }
            }
            assert(self@ =~= old(self)@);
        }
        data
    }

    /// Puts `data` into an empty list.
    fn insert_first(&mut self, data: T)
        requires
            old(self).wf(),
            old(self).has_room(),
            old(self)@.len() == 0,
        ensures
            old(self).tight() ==> final(self).tight(),
            final(self).wf(),
            final(self)@ == seq![data],
            final(self).spec_order().len() == 1,
    {
        proof {
            reveal(links_ring);
            reveal(links_chain);
            reveal(apart);
        }
        let new_node = self.allocate(data);
        let index = new_node.as_usize();
        self.memory[index].children = [new_node, new_node];
        self.front = new_node;
        self.rear = new_node;
        self.len = 1;
        proof {
            self.order = Ghost(seq![index as int]);
            assert forall|j: int| 0 <= j < self.spare@.len() implies self.spare@[j]
                != index by {
                assert(self.spare@.contains(self.spare@[j]));
            }
            assert(self@ =~= seq![data]);
        }
    }

    /// Sets the pointer on the side `side` of the node at `index` to `to`.
    fn set_child(&mut self, index: usize, side: usize, to: Ptr)
        requires
            index < old(self).memory@.len(),
            side < 2,
        ensures
            final(self).memory@.len() == old(self).memory@.len(),
            final(self).memory@[index as int].data == old(self).memory@[index as int].data,
            final(self).memory@[index as int].children[side as int] == to,
            final(self).memory@[index as int].children[1 - side] == old(self).memory@[index as int].children[1 - side],
            forall|i: int|
                0 <= i < old(self).memory@.len() && i != index ==> #[trigger] final(self).memory@[i] == old(self).memory@[i],
            final(self).front == old(self).front,
            final(self).rear == old(self).rear,
            final(self).pool == old(self).pool,
            final(self).len == old(self).len,
            final(self).order == old(self).order,
            final(self).spare == old(self).spare,
    {
        self.memory[index].children[side] = to;
    }

    /// Links the node at `added` in between the node at `node` and its
    /// neighbour at `next` on the side `side`.
    fn link(&mut self, node: usize, next: usize, added: usize, side: usize)
        requires
            node < old(self).memory@.len(),
            next < old(self).memory@.len(),
            added < old(self).memory@.len(),
            added != node,
            added != next,
            side < 2,
            node <= u32::MAX,
            next <= u32::MAX,
            added <= u32::MAX,
        ensures
            final(self).memory@.len() == old(self).memory@.len(),
            final(self).front == old(self).front,
            final(self).rear == old(self).rear,
            final(self).pool == old(self).pool,
            final(self).len == old(self).len,
            final(self).order == old(self).order,
            final(self).spare == old(self).spare,
            ({
                let before = old(self).memory@;
                let after = final(self).memory@;
                &&& after[added as int].data == before[added as int].data
                &&& after[added as int].children[side as int].0 == next
                &&& after[added as int].children[1 - side].0 == node
                &&& after[node as int].data == before[node as int].data
                &&& after[node as int].children[side as int].0 == added
                &&& node != next ==> after[node as int].children[1 - side]
                    == before[node as int].children[1 - side]
                &&& after[next as int].data == before[next as int].data
                &&& after[next as int].children[1 - side].0 == added
                &&& node != next ==> after[next as int].children[side as int]
                    == before[next as int].children[side as int]
                &&& forall|i: int|
                    0 <= i < before.len() && i != added && i != node && i != next ==> #[trigger] after[i]
                        == before[i]
            }),
    {
        self.set_child(node, side, Ptr(added as u32));
        self.set_child(next, 1 - side, Ptr(added as u32));
        self.set_child(added, 1 - side, Ptr(node as u32));
        self.set_child(added, side, Ptr(next as u32));
    }

    /// Puts `data` into the list next to the node that `node` points to, on
    /// the side `direction`. Into an empty list `data` goes whatever `node`
    /// is; with a null pointer and a list that is not empty nothing happens.
    pub fn insert_at(&mut self, node: Ptr, direction: InsertDirection, data: T)
        requires
            old(self).wf(),
            old(self).has_room(),
            old(self)@.len() == 0 || node == null() || old(self).contains(node),
        ensures
            old(self).tight() ==> final(self).tight(),
            final(self).wf(),
            final(self)@ == if old(self)@.len() == 0 {
                seq![data]
            } else if node == null() {
                old(self)@
            } else {
                old(self)@.insert(
                    old(self).place_of(node) + if direction == InsertDirection::Left {
                        0int
                    } else {
                        1int
                    },
                    data,
                )
            },
            final(self).keeps_nodes_of(
                old(self),
                old(self).place_of(node) + if direction == InsertDirection::Left {
                    0int
                } else {
                    1int
                },
                if node == null() {
                    0int
                } else {
                    1int
                },
            ),
    {
        if self.len == 0 {
            self.insert_first(data);
            return ;
        }
        if node.is_null() {
            return ;
        }
        proof {
            self.lemma_contains(node);
        }
        let ghost place = self.place_of(node);
        let raw_direction = direction.as_usize();
        let new_node = self.allocate(data);
        let ghost allocated = *self;
        let node_index = node.as_usize();
        proof {
            self.lemma_neighbours(place);
        }
        let adj_node = self.memory[node_index].children[raw_direction];
        proof {
            let order = self.order@;
            let beside = if raw_direction == 0 {
                place_before(place, order.len() as int)
            } else {
                place_after(place, order.len() as int)
            };
            assert(order.contains(order[beside]));
            assert(order.contains(order[place]));
        }
        self.link(node_index, adj_node.as_usize(), new_node.as_usize(), raw_direction);
        proof {
            Self::lemma_inserted(
                allocated.memory@,
                self.memory@,
                allocated.order@,
                self.spare@,
                place,
                raw_direction as int,
                new_node.0 as int,
            );
        }
        if node == self.front && direction == InsertDirection::Left {
            self.front = new_node;
        }
        if node == self.rear && direction == InsertDirection::Right {
            self.rear = new_node;
        }
        self.len += 1;
        proof {
            let at = place + raw_direction;
            self.order = Ghost(allocated.order@.insert(at, new_node.0 as int));
            assert(self@ =~= old(self)@.insert(at, data));
            assert forall|other: Ptr| #[trigger] old(self).contains(other) implies self.contains(
                other,
            ) && self.place_of(other) == if old(self).place_of(other) >= at {
                old(self).place_of(other) + 1
            } else {
                old(self).place_of(other)
            } by {
                reveal(apart);
                lemma_insert_places(allocated.order@, at, new_node.0 as int, other.0 as int);
            }
        }
    }

    /// What `insert_at` leaves behind is a valid list with the value of the
    /// new node at its place and the other values as they were.
    proof fn lemma_inserted(
        before: Seq<Node<T, 2>>,
        after: Seq<Node<T, 2>>,
        order: Seq<int>,
        spare: Seq<int>,
        place: int,
        side: int,
        added: int,
    )
        requires
            links_ring(before, order),
            links_chain(before, spare),
            apart(order, spare),
            !order.contains(added),
            !spare.contains(added),
            0 <= place < order.len(),
            side == 0 || side == 1,
            0 <= added < before.len(),
            after.len() == before.len(),
            before[added].data.is_some(),
            ({
                let node = order[place];
                let next = order[if side == 0 {
                    place_before(place, order.len() as int)
                } else {
                    place_after(place, order.len() as int)
                }];
                &&& after[added].data == before[added].data
                &&& after[added].children[side].0 == next
                &&& after[added].children[1 - side].0 == node
                &&& after[node].data == before[node].data
                &&& after[node].children[side].0 == added
                &&& node != next ==> after[node].children[1 - side] == before[node].children[1
                    - side]
                &&& after[next].data == before[next].data
                &&& after[next].children[1 - side].0 == added
                &&& node != next ==> after[next].children[side] == before[next].children[side]
                &&& forall|i: int|
                    0 <= i < before.len() && i != added && i != node && i != next ==> #[trigger] after[i]
                        == before[i]
            }),
        ensures
            links_ring(after, order.insert(place + side, added)),
            links_chain(after, spare),
            apart(order.insert(place + side, added), spare),
            order.len() + 1 <= before.len(),
            0 <= order[0] < before.len(),
            0 <= order[order.len() - 1] < before.len(),
            order[0] == order[place] ==> place == 0,
            order[order.len() - 1] == order[place] ==> place == order.len() - 1,
            forall|i: int|
                0 <= i < order.len() + 1 ==> #[trigger] after[order.insert(
                    place + side,
                    added,
                )[i]].data == if i < place + side {
                    before[order[i]].data
                } else if i == place + side {
                    before[added].data
                } else {
                    before[order[i - 1]].data
                },
            forall|i: int|
                0 <= i < order.len() + 1 ==> #[trigger] order.insert(place + side, added)[i]
                    == if i < place + side {
                    order[i]
                } else if i == place + side {
                    added
                } else {
                    order[i - 1]
                },
    {
        reveal(apart);
        reveal(links_ring);
        reveal(links_chain);
        let at = place + side;
        let longer = order.insert(at, added);
        let node = order[place];
        let beside = if side == 0 {
            place_before(place, order.len() as int)
        } else {
            place_after(place, order.len() as int)
        };
        let next = order[beside];
        lemma_insert_distinct(order, at, added);
        lemma_insert_ring(before, after, order, place, side, added);
        assert forall|i: int| 0 <= i < longer.len() implies 0 <= #[trigger] longer[i]
            < before.len() by {
            if i != at {
                let a = if i < at {
                    i
                } else {
                    i - 1
                };
                assert(0 <= order[a] < before.len());
            }
        }
        lemma_distinct_below(longer, before.len() as int);
        assert forall|j: int| 0 <= j < spare.len() implies after[#[trigger] spare[j]]
            == before[spare[j]] by {
            assert(spare.contains(spare[j]));
            assert(order[place] != spare[j]);
            assert(order[beside] != spare[j]);
        }
        lemma_chain_kept(before, after, spare);
        assert forall|i: int, j: int|
            0 <= i < longer.len() && 0 <= j < spare.len() implies #[trigger] longer[i]
            != #[trigger] spare[j] by {
            if i == at {
                assert(spare.contains(spare[j]));
            } else {
                let a = if i < at {
                    i
                } else {
                    i - 1
                };
                assert(order[a] != spare[j]);
            }
        }
        assert forall|i: int| 0 <= i < order.len() + 1 implies #[trigger] after[longer[i]].data
            == if i < at {
            before[order[i]].data
        } else if i == at {
            before[added].data
        } else {
            before[order[i - 1]].data
        } by {
            if i != at {
                let a = if i < at {
                    i
                } else {
                    i - 1
                };
                assert(order.contains(order[a]));
                assert(0 <= order[a] < before.len());
            }
        }
    }

    pub fn push_front(&mut self, data: T)
        requires
            old(self).wf(),
            old(self).has_room(),
        ensures
            old(self).tight() ==> final(self).tight(),
            final(self).wf(),
            final(self)@ == seq![data] + old(self)@,
            final(self).keeps_nodes_of(old(self), 0, 1),
    {
        proof {
            if self.order@.len() > 0 {
                self.lemma_place(0);
            }
        }
        let front = self.front;
        self.insert_at(front, InsertDirection::Left, data);
        proof {
            assert(old(self)@.insert(0, data) =~= seq![data] + old(self)@);
            assert(seq![data] + Seq::<T>::empty() =~= seq![data]);
        }
    }

    pub fn push_rear(&mut self, data: T)
        requires
            old(self).wf(),
            old(self).has_room(),
        ensures
            old(self).tight() ==> final(self).tight(),
            final(self).wf(),
            final(self)@ == old(self)@.push(data),
            final(self).keeps_nodes_of(old(self), 0, 0),
    {
        proof {
            if self.order@.len() > 0 {
                self.lemma_place(self.order@.len() - 1);
            }
        }
        let rear = self.rear;
        self.insert_at(rear, InsertDirection::Right, data);
        proof {
            assert(old(self)@.insert(old(self)@.len() as int, data) =~= old(self)@.push(data));
            assert(Seq::<T>::empty().push(data) =~= seq![data]);
        }
    }

    /// What `remove_at` leaves behind before the node goes into the pool is
    /// a list without the node, the other values as they were.
    proof fn lemma_removed(
        before: Seq<Node<T, 2>>,
        after: Seq<Node<T, 2>>,
        order: Seq<int>,
        spare: Seq<int>,
        place: int,
    )
        requires
            links_ring(before, order),
            links_chain(before, spare),
            apart(order, spare),
            order.len() >= 2,
            0 <= place < order.len(),
            after.len() == before.len(),
            ({
                let left = order[place_before(place, order.len() as int)];
                let right = order[place_after(place, order.len() as int)];
                &&& after[left].data == before[left].data
                &&& after[left].children[1].0 == right
                &&& left != right ==> after[left].children[0] == before[left].children[0]
                &&& after[right].data == before[right].data
                &&& after[right].children[0].0 == left
                &&& left != right ==> after[right].children[1] == before[right].children[1]
                &&& forall|i: int|
                    0 <= i < before.len() && i != left && i != right ==> #[trigger] after[i]
                        == before[i]
            }),
        ensures
            links_ring(after, order.remove(place)),
            links_chain(after, spare),
            apart(order.remove(place), spare),
            !order.remove(place).contains(order[place]),
            !spare.contains(order[place]),
            0 <= order[place] < before.len(),
            after[order[place]].data == before[order[place]].data,
            forall|i: int|
                0 <= i < order.len() - 1 ==> #[trigger] order.remove(place)[i] == if i < place {
                    order[i]
                } else {
                    order[i + 1]
                },
            forall|i: int|
                0 <= i < order.len() ==> #[trigger] after[order[i]].data == before[order[i]].data,
            forall|i: int| 0 <= i < order.len() ==> 0 <= #[trigger] order[i] < before.len(),
    {
        reveal(apart);
        reveal(links_ring);
        reveal(links_chain);
        let len = order.len() as int;
        let shorter = order.remove(place);
        let left = order[place_before(place, len)];
        let right = order[place_after(place, len)];
        lemma_remove_distinct(order, place);
        lemma_remove_ring(before, after, order, place);
        assert(left != order[place]);
        assert(right != order[place]);
        assert forall|j: int| 0 <= j < spare.len() implies after[#[trigger] spare[j]]
            == before[spare[j]] by {
            assert(left != spare[j]);
            assert(right != spare[j]);
        }
        lemma_chain_kept(before, after, spare);
        assert forall|i: int, j: int|
            0 <= i < shorter.len() && 0 <= j < spare.len() implies #[trigger] shorter[i]
            != #[trigger] spare[j] by {
            let a = if i < place {
                i
            } else {
                i + 1
            };
            assert(order[a] != spare[j]);
        }
        if spare.contains(order[place]) {
            let j = spare.index_of(order[place]);
            assert(order[place] != spare[j]);
        }
    }

    /// Takes the only node of the list out of it and hands out its value.
    fn remove_only(&mut self) -> (data: Option<T>)
        requires
            old(self).wf(),
            old(self)@.len() == 1,
        ensures
            old(self).tight() ==> final(self).tight(),
            final(self).wf(),
            data == Some(old(self)@[0]),
            final(self)@ == Seq::<T>::empty(),
            final(self).has_room(),
            forall|other: Ptr| !final(self).contains(other),
    {
        proof {
            self.lemma_neighbours(0);
            self.lemma_place(0);
            reveal(apart);
            reveal(links_ring);
            reveal(links_chain);
        }
        let last = self.rear;
        self.front = Ptr::null();
        self.rear = Ptr::null();
        self.len = 0;
        proof {
            self.order = Ghost(Seq::empty());
            assert forall|j: int| 0 <= j < self.spare@.len() implies self.spare@[j]
                != last.0 by {
                assert(old(self).order@[0] != self.spare@[j]);
            }
        }
        let data = self.free(last);
        proof {
            assert(self@ =~= Seq::<T>::empty());
        }
        data
    }

    /// Takes the node that `node` points to out of a list of at least two
    /// nodes: its neighbours are linked to each other, and the node is left
    /// outside the list and the pool, with its value.
    fn unlink(&mut self, node: Ptr)
        requires
            old(self).wf(),
            old(self)@.len() >= 2,
            old(self).contains(node),
        ensures
            final(self).wf(),
            final(self)@ == old(self)@.remove(old(self).place_of(node)),
            final(self).detached(node),
            final(self).spec_memory()[node.0 as int].data == Some(
                old(self)@[old(self).place_of(node)],
            ),
            final(self).spec_spare() == old(self).spec_spare(),
            final(self).spec_memory().len() == old(self).spec_memory().len(),
            final(self).spec_order() == old(self).spec_order().remove(old(self).place_of(node)),
    {
        proof {
            self.lemma_contains(node);
        }
        let ghost place = self.place_of(node);
        let ghost unlinked_from = *self;
        let index = node.as_usize();
        proof {
            self.lemma_neighbours(place);
            self.lemma_neighbours(0);
            self.lemma_neighbours(self.order@.len() - 1);
            self.lemma_place(0);
            self.lemma_place(self.order@.len() - 1);
        }
        let left_neighbour = self.memory[index].children[0];
        let right_neighbour = self.memory[index].children[1];
        self.set_child(left_neighbour.as_usize(), 1, right_neighbour);
        self.set_child(right_neighbour.as_usize(), 0, left_neighbour);
        proof {
            Self::lemma_removed(
                unlinked_from.memory@,
                self.memory@,
                unlinked_from.order@,
                self.spare@,
                place,
            );
        }
        if node == self.front {
            self.front = right_neighbour;
        }
        if node == self.rear {
            self.rear = left_neighbour;
        }
        self.len -= 1;
        proof {
            self.order = Ghost(unlinked_from.order@.remove(place));
            assert(self@ =~= old(self)@.remove(place));
        }
    }

    /// Pointers to the nodes that stay in a list point to the same nodes
    /// after a node was taken out, those behind it one place further to the
    /// front.
    proof fn lemma_unlinked_keeps(&self, before: &Self, node: Ptr)
        requires
            before.wf(),
            before.contains(node),
            self.spec_order() == before.spec_order().remove(before.place_of(node)),
        ensures
            self.keeps_nodes_but(before, node, before.place_of(node)),
    {
        reveal(apart);
        before.lemma_contains(node);
        let place = before.place_of(node);
        lemma_remove_distinct(before.order@, place);
        assert forall|other: Ptr| #[trigger]
            before.contains(other) && other != node implies self.contains(other)
            && self.place_of(other) == if before.place_of(other) > place {
            before.place_of(other) - 1
        } else {
            before.place_of(other)
        } by {
            lemma_remove_places(before.order@, place, other.0 as int);
        }
    }

    /// Takes the node that `node` points to out of the list and hands out
    /// its value. The last node of a list goes whatever `node` is; from an
    /// empty list nothing comes.
    pub fn remove_at(&mut self, node: Ptr) -> (data: Option<T>)
        requires
            old(self).wf(),
            old(self)@.len() >= 2 ==> old(self).contains(node),
        ensures
            old(self).tight() ==> final(self).tight(),
            final(self).wf(),
            old(self)@.len() == 0 ==> data.is_none() && final(self)@ == old(self)@,
            old(self)@.len() == 1 ==> data == Some(old(self)@[0]) && final(self)@
                == Seq::<T>::empty(),
            old(self)@.len() >= 2 ==> data == Some(old(self)@[old(self).place_of(node)])
                && final(self)@ == old(self)@.remove(old(self).place_of(node)),
            old(self).has_room() ==> final(self).has_room(),
            old(self)@.len() > 0 ==> final(self).has_room(),
            old(self)@.len() >= 2 ==> final(self).keeps_nodes_but(
                old(self),
                node,
                old(self).place_of(node),
            ),
            old(self)@.len() <= 1 ==> forall|other: Ptr| !final(self).contains(other),
    {
        if self.len == 0 {
            proof {
                assert forall|other: Ptr| !self.contains(other) by {
                    if self.contains(other) {
                        self.lemma_contains(other);
                    }
                }
            }
            return None;
        }
        if self.len == 1 {
            return self.remove_only();
        }
        self.unlink(node);
        proof {
            self.lemma_unlinked_keeps(old(self), node);
        }
        self.free(node)
    }

    /// Takes the last value off the list.
    pub fn pop_rear(&mut self) -> (data: Option<T>)
        requires
            old(self).wf(),
        ensures
            old(self).tight() ==> final(self).tight(),
            final(self).wf(),
            old(self)@.len() == 0 ==> data.is_none() && final(self)@ == old(self)@,
            old(self)@.len() > 0 ==> data == Some(old(self)@.last()) && final(self)@ == old(self)@.drop_last() && final(self).has_room(),
            old(self).has_room() ==> final(self).has_room(),
            forall|node: Ptr| #[trigger]
                old(self).contains(node) && old(self).place_of(node) < old(self)@.len() - 1
                    ==> final(self).contains(node) && final(self).place_of(node) == old(
                    self,
                ).place_of(node),
    {
        proof {
            if self.order@.len() > 0 {
                self.lemma_place(self.order@.len() - 1);
            }
        }
        let rear = self.rear;
        let data = self.remove_at(rear);
        proof {
            assert forall|node: Ptr| #[trigger]
                old(self).contains(node) && old(self).place_of(node) < old(self)@.len()
                    - 1 implies self.contains(node) && self.place_of(node) == old(self).place_of(
                node,
            ) by {
                old(self).lemma_contains(node);
                old(self).lemma_view();
            }
            if old(self)@.len() > 0 {
                assert(old(self)@.remove(old(self)@.len() - 1) =~= old(self)@.drop_last());
                assert(Seq::<T>::empty() =~= old(self)@.drop_last() || old(self)@.len() > 1);
            }
        }
        data
    }

    /// Takes the first value off the list.
    pub fn pop_front(&mut self) -> (data: Option<T>)
        requires
            old(self).wf(),
        ensures
            old(self).tight() ==> final(self).tight(),
            final(self).wf(),
            old(self)@.len() == 0 ==> data.is_none() && final(self)@ == old(self)@,
            old(self)@.len() > 0 ==> data == Some(old(self)@[0]) && final(self)@ == old(self)@.drop_first() && final(self).has_room(),
            old(self).has_room() ==> final(self).has_room(),
    {
        proof {
            if self.order@.len() > 0 {
                self.lemma_place(0);
            }
        }
        let front = self.front;
        let data = self.remove_at(front);
        proof {
            if old(self)@.len() > 0 {
                assert(old(self)@.remove(0) =~= old(self)@.drop_first());
                assert(Seq::<T>::empty() =~= old(self)@.drop_first() || old(self)@.len() > 1);
            }
        }
        data
    }

    /// The node that `node` points to, in the list or not; `None` where
    /// `node` points to no node.
    pub fn get(&self, node: Ptr) -> (found: Option<&Node<T, 2>>)
        ensures
            found == if node.0 < self.spec_memory().len() {
                Some(&self.spec_memory()[node.0 as int])
            } else {
                None
            },
    {
        let index = node.as_usize();
        if index < self.memory.len() {
            Some(&self.memory[index])
        } else {
            None
        }
    }

    /// The node that `node` points to, to change it; `None` where `node`
    /// points to no node. Whoever changes the pointers of a node, or takes
    /// the value of a node of the list, answers for the list to be valid
    /// afterwards.
    pub fn get_mut(&mut self, node: Ptr) -> (found: Option<&mut Node<T, 2>>)
        ensures
            final(self).spec_order() == old(self).spec_order(),
            final(self).spec_spare() == old(self).spec_spare(),
            match found {
                None => node.0 >= old(self).spec_memory().len() && final(self).spec_memory()
                    == old(self).spec_memory(),
                Some(found) => {
                    &&& node.0 < old(self).spec_memory().len()
                    &&& *found == old(self).spec_memory()[node.0 as int]
                    &&& final(self).spec_memory() == old(self).spec_memory().update(
                        node.0 as int,
                        *final(found),
                    )
                },
            },
    {
        let index = node.as_usize();
        if index < self.memory.len() {
            Some(&mut self.memory[index])
        } else {
            None
        }
    }

    /// The value of the node of the list that `node` points to, to change
    /// it: the list stays valid whatever the value becomes.
    pub fn value_mut(&mut self, node: Ptr) -> (value: &mut T)
        requires
            old(self).wf(),
            old(self).contains(node),
        ensures
            *value == old(self)@[old(self).place_of(node)],
            final(self).wf(),
            final(self)@ == old(self)@.update(old(self).place_of(node), *final(value)),
            final(self).spec_order() == old(self).spec_order(),
            old(self).tight() ==> final(self).tight(),
            old(self).has_room() ==> final(self).has_room(),
    {
        proof {
            self.lemma_contains(node);
            self.lemma_neighbours(self.place_of(node));
            reveal(links_ring);
            reveal(links_chain);
            reveal(apart);
        }
        let index = node.as_usize();
        self.memory[index].data.as_mut().unwrap()
    }

    /// The values of the list, front first.
    pub fn iter(&self) -> (values: Vec<&T>)
        requires
            self.wf(),
        ensures
            values@.len() == self@.len(),
            forall|i: int| 0 <= i < self@.len() ==> *#[trigger] values@[i] == self@[i],
    {
        let mut values: Vec<&T> = Vec::new();
        let mut walker = LinkedListIterator::new(self);
        loop
            invariant
                self.wf(),
                walker.wf(),
                walker.list() == self,
                values@.len() == walker.place(),
                forall|i: int| 0 <= i < values@.len() ==> *#[trigger] values@[i] == self@[i],
            ensures
                values@.len() == self@.len(),
            decreases self@.len() - walker.place(),
        {
            let node = match walker.next() {
                None => {
                    break ;
                },
                Some(node) => node,
            };
            proof {
                self.lemma_neighbours(values@.len() as int);
            }
            match self.memory[node.as_usize()].data() {
                Some(value) => {
                    values.push(value);
                },
                None => {
                    assert(false);
                },
            }
        }
        values
    }
}

/// A walk over the nodes of a list, front first.
pub struct LinkedListIterator<'a, T> {
    ll: &'a LinkedList<T>,
    items_remaining: usize,
    ptr: Ptr,
    at: Ghost<int>,
}

impl<'a, T> LinkedListIterator<'a, T> {
    /// The list that is walked.
    pub closed spec fn list(&self) -> &'a LinkedList<T> {
        self.ll
    }

    /// The place of the node that comes next.
    pub closed spec fn place(&self) -> int {
        self.at@
    }

    /// The walk is within its list, which is valid, and points to the node
    /// at its place.
    pub closed spec fn wf(&self) -> bool {
        &&& self.ll.wf()
        &&& 0 <= self.at@ <= self.ll.spec_order().len()
        &&& self.items_remaining == self.ll.spec_order().len() - self.at@
        &&& self.items_remaining > 0 ==> self.ptr.0 == self.ll.spec_order()[self.at@]
    }

    /// A walk from the front of `ll`.
    pub fn new(ll: &'a LinkedList<T>) -> (walk: Self)
        requires
            ll.wf(),
        ensures
            walk.wf(),
            walk.list() == ll,
            walk.place() == 0,
    {
        proof {
            if ll.spec_order().len() > 0 {
                ll.lemma_place(0);
            }
        }
        Self { ll, items_remaining: ll.len(), ptr: ll.front, at: Ghost(0) }
    }

    /// The pointer to the next node of the list, or `None` behind the last.
    pub fn next(&mut self) -> (node: Option<Ptr>)
        requires
            old(self).wf(),
        ensures
            final(self).wf(),
            final(self).list() == old(self).list(),
            match node {
                None => old(self).place() == old(self).list().spec_order().len() && final(self).place() == old(self).place(),
                Some(node) => {
                    &&& old(self).place() < old(self).list().spec_order().len()
                    &&& node.0 == old(self).list().spec_order()[old(self).place()]
                    &&& final(self).place() == old(self).place() + 1
                },
            },
    {
        if self.items_remaining > 0 {
            let cur_node = self.ptr;
            proof {
                self.ll.lemma_neighbours(self.at@);
            }
            self.items_remaining -= 1;
            self.ptr = self.ll.memory[cur_node.as_usize()].children[1];
            proof {
                self.at = Ghost(self.at@ + 1);
            }
            Some(cur_node)
        } else {
            None
        }
    }
}

} // verus!
