//! Nodes and pointers for structures that keep their nodes in a vector.

use vstd::prelude::*;
use vstd::std_specs::convert::FromSpecImpl;

verus! {

/// A pointer for structures that keep their nodes in a vector: the index of
/// a node.
#[derive(Copy, Clone, PartialEq, Eq, Structural, Debug)]
pub struct Ptr(pub u32);

/// The index that no node has: the pointer with this index points nowhere.
pub const NULL_INDEX: u32 = 0xffff_ffff;

/// The pointer that points nowhere.
pub open spec fn null() -> Ptr {
    Ptr(NULL_INDEX)
}

impl Ptr {
    /// The pointer that points nowhere.
    pub fn null() -> (ptr: Ptr)
        ensures
            ptr == null(),
    {
        Ptr(NULL_INDEX)
    }

    /// Whether the pointer points nowhere.
    pub fn is_null(&self) -> (b: bool)
        ensures
            b == (*self == null()),
    {
        self.0 == NULL_INDEX
    }

    pub fn as_usize(&self) -> (index: usize)
        ensures
            index == self.0,
    {
        self.0 as usize
    }
}

impl From<u32> for Ptr {
    fn from(idx: u32) -> (ptr: Self) {
        Self(idx)
    }
}

impl FromSpecImpl<u32> for Ptr {
    open spec fn obeys_from_spec() -> bool {
        true
    }

    open spec fn from_spec(idx: u32) -> Self {
        Ptr(idx)
    }
}

impl From<u64> for Ptr {
    /// The pointer of the index `idx`, of which the low 32 bits are kept.
    fn from(idx: u64) -> (ptr: Self) {
        Self((idx % 0x1_0000_0000) as u32)
    }
}

impl FromSpecImpl<u64> for Ptr {
    open spec fn obeys_from_spec() -> bool {
        true
    }

    open spec fn from_spec(idx: u64) -> Self {
        Ptr((idx % 0x1_0000_0000) as u32)
    }
}

impl From<usize> for Ptr {
    /// The pointer of the index `idx`, of which the low 32 bits are kept.
    fn from(idx: usize) -> (ptr: Self) {
        Self((idx as u64 % 0x1_0000_0000) as u32)
    }
}

impl FromSpecImpl<usize> for Ptr {
    open spec fn obeys_from_spec() -> bool {
        true
    }

    open spec fn from_spec(idx: usize) -> Self {
        Ptr((idx as u64 % 0x1_0000_0000) as u32)
    }
}

/// A node with a value and `N` pointers to other nodes.
#[derive(Debug)]
pub struct Node<T, const N: usize> {
    pub data: Option<T>,
    pub children: [Ptr; N],
}

impl<T, const N: usize> Node<T, N> {
    /// A node without a value, all of its pointers null.
    pub fn new() -> (node: Self)
        ensures
            node.data.is_none(),
            forall|i: int| 0 <= i < N ==> #[trigger] node.children[i] == null(),
    {
        Self { data: None, children: [Ptr(NULL_INDEX); N] }
    }

    /// Sets every pointer to null.
    pub fn nullify(&mut self)
        ensures
            final(self).data == old(self).data,
            forall|i: int| 0 <= i < N ==> #[trigger] final(self).children[i] == null(),
    {
        self.children = [Ptr(NULL_INDEX); N];
    }

    pub fn data(&self) -> (data: Option<&T>)
        ensures
            data == match self.data {
                Some(value) => Some(&value),
                None => None,
            },
    {
        self.data.as_ref()
    }

    pub fn data_mut(&mut self) -> (data: Option<&mut T>)
        ensures
            final(self).children == old(self).children,
            match data {
                Some(value) => old(self).data == Some(*value) && final(self).data == Some(
                    *final(value),
                ),
                None => old(self).data.is_none() && final(self).data.is_none(),
            },
    {
        self.data.as_mut()
    }

    pub fn set_data(&mut self, item: T)
        ensures
            final(self).data == Some(item),
            final(self).children == old(self).children,
    {
        self.data = Some(item);
    }
}

impl<T, const N: usize> From<T> for Node<T, N> {
    /// A node with the value `item`, all of its pointers null.
    fn from(item: T) -> (node: Self) {
        Self { data: Some(item), children: [Ptr(NULL_INDEX); N] }
    }
}

impl<T, const N: usize> FromSpecImpl<T> for Node<T, N> {
    open spec fn obeys_from_spec() -> bool {
        true
    }

    open spec fn from_spec(item: T) -> Self {
        Node { data: Some(item), children: [Ptr(NULL_INDEX); N] }
    }
}

} // verus!
