//! Ordered lists of nodes placed at known virtual addresses.
//!
//! Each node records the address where it lives; the order of the nodes is
//! the order in which they were appended, and removing a node keeps the order
//! of the others.
use vstd::prelude::*;

use crate::address::VirtualAddress;

verus! {

/// Size of one link pointer stored in a node, in bytes.
pub const LIST_PTR_SIZE: u64 = 8;

/// A node of a doubly linked list: its address and its data.
pub struct DoublyLinkedListNode<T> {
    pub address: VirtualAddress,
    pub data: T,
}

/// A node of a singly linked list: its address and its data.
pub struct SinglyLinkedListNode<T> {
    pub address: VirtualAddress,
    pub data: T,
}

/// A list whose nodes carry a link to the next and to the previous node.
pub struct DoublyLinkedList<T> {
    nodes: Vec<DoublyLinkedListNode<T>>,
}

/// A list whose nodes carry a link to the next node.
pub struct SinglyLinkedList<T> {
    nodes: Vec<SinglyLinkedListNode<T>>,
}

/// Walks the node addresses of a doubly linked list from head to tail.
pub struct DoublyLinkedListIterator<'a, T> {
    pub list: &'a DoublyLinkedList<T>,
    pub index: usize,
}

/// Walks the node addresses of a singly linked list from head to tail.
pub struct SinglyLinkedListIterator<'a, T> {
    pub list: &'a SinglyLinkedList<T>,
    pub index: usize,
}

impl<T> DoublyLinkedList<T> {
    /// The nodes from head to tail.
    pub closed spec fn nodes(&self) -> Seq<DoublyLinkedListNode<T>> {
        self.nodes@
    }

    /// The node addresses from head to tail.
    pub open spec fn addresses(&self) -> Seq<u64> {
        self.nodes().map_values(|n: DoublyLinkedListNode<T>| n.address@)
    }

    pub fn new() -> (r: Self)
        ensures
            r.nodes().len() == 0,
    {
        DoublyLinkedList { nodes: Vec::new() }
    }

    pub fn len(&self) -> (r: usize)
        ensures
            r == self.nodes().len(),
    {
        self.nodes.len()
    }

    /// Places a node holding `data` at `address` and links it after the tail.
    pub fn append_to_address(&mut self, address: VirtualAddress, data: T)
        ensures
            final(self).nodes() == old(self).nodes().push(
                DoublyLinkedListNode { address, data },
            ),
    {
        self.nodes.push(DoublyLinkedListNode { address, data });
    }

    /// Unlinks the first node that lives at `address`, if any, and returns
    /// its data. The list must not be empty.
    pub fn remove(&mut self, address: VirtualAddress) -> (r: Option<T>)
        requires
            old(self).nodes().len() > 0,
        ensures
            forall|k: int|
                0 <= k < old(self).nodes().len() && old(self).nodes()[k].address == address
                    && (forall|j: int| 0 <= j < k ==> old(self).nodes()[j].address != address)
                    ==> final(self).nodes() == old(self).nodes().remove(k) && r == Some(
                    old(self).nodes()[k].data,
                ),
            (forall|j: int|
                0 <= j < old(self).nodes().len() ==> old(self).nodes()[j].address != address)
                ==> final(self).nodes() == old(self).nodes() && r.is_none(),
    {
        let mut i: usize = 0;
        while i < self.nodes.len()
            invariant
                i <= self.nodes@.len(),
                self.nodes@ == old(self).nodes@,
                forall|j: int| 0 <= j < i ==> self.nodes@[j].address != address,
            decreases self.nodes@.len() - i,
        {
            if self.nodes[i].address == address {
                let node = self.nodes.remove(i);
                return Some(node.data);
            }
            i = i + 1;
        }
        None
    }

    pub fn iter(&self) -> (r: DoublyLinkedListIterator<'_, T>)
        ensures
            r.list == self,
            r.index == 0,
    {
        DoublyLinkedListIterator { list: self, index: 0 }
    }

    /// The data of the tail node.
    pub fn tail(&self) -> (r: Option<&T>)
        ensures
            self.nodes().len() == 0 ==> r.is_none(),
            self.nodes().len() > 0 ==> r == Some(&self.nodes().last().data),
    {
        if self.nodes.len() == 0 {
            None
        } else {
            Some(&self.nodes[self.nodes.len() - 1].data)
        }
    }

    /// The data of the head node.
    pub fn head(&self) -> (r: Option<&T>)
        ensures
            self.nodes().len() == 0 ==> r.is_none(),
            self.nodes().len() > 0 ==> r == Some(&self.nodes()[0].data),
    {
        if self.nodes.len() == 0 {
            None
        } else {
            Some(&self.nodes[0].data)
        }
    }

    /// The address of the tail node.
    pub fn tail_node(&self) -> (r: Option<VirtualAddress>)
        ensures
            self.nodes().len() == 0 ==> r.is_none(),
            self.nodes().len() > 0 ==> r == Some(self.nodes().last().address),
    {
        if self.nodes.len() == 0 {
            None
        } else {
            Some(self.nodes[self.nodes.len() - 1].address)
        }
    }

    /// The address of the head node.
    pub fn head_node(&self) -> (r: Option<VirtualAddress>)
        ensures
            self.nodes().len() == 0 ==> r.is_none(),
            self.nodes().len() > 0 ==> r == Some(self.nodes()[0].address),
    {
        if self.nodes.len() == 0 {
            None
        } else {
            Some(self.nodes[0].address)
        }
    }

    /// Size of the links that precede a node's data.
    pub fn list_node_size(&self) -> (r: u64)
        ensures
            r == 2 * LIST_PTR_SIZE,
    {
        2 * LIST_PTR_SIZE
    }

    /// Size of one link.
    pub fn list_ptr_size(&self) -> (r: u64)
        ensures
            r == LIST_PTR_SIZE,
    {
        LIST_PTR_SIZE
    }
}

impl<'a, T> DoublyLinkedListIterator<'a, T> {
    /// The address of the next node, from head to tail.
    pub fn next(&mut self) -> (r: Option<VirtualAddress>)
        ensures
            final(self).list == old(self).list,
            old(self).index < old(self).list.nodes().len() ==> r == Some(
                old(self).list.nodes()[old(self).index as int].address,
            ) && final(self).index == old(self).index + 1,
            old(self).index >= old(self).list.nodes().len() ==> r.is_none() && final(self).index
                == old(self).index,
    {
        if self.index < self.list.nodes.len() {
            let a = self.list.nodes[self.index].address;
            self.index = self.index + 1;
            Some(a)
        } else {
            None
        }
    }
}

impl<T> SinglyLinkedList<T> {
    /// The nodes from head to tail.
    pub closed spec fn nodes(&self) -> Seq<SinglyLinkedListNode<T>> {
        self.nodes@
    }

    pub fn new() -> (r: Self)
        ensures
            r.nodes().len() == 0,
    {
        SinglyLinkedList { nodes: Vec::new() }
    }

    pub fn len(&self) -> (r: usize)
        ensures
            r == self.nodes().len(),
    {
        self.nodes.len()
    }

    /// Places a node holding `data` at `address` and links it after the tail.
    pub fn append_to_address(&mut self, address: VirtualAddress, data: T)
        ensures
            final(self).nodes() == old(self).nodes().push(
                SinglyLinkedListNode { address, data },
            ),
    {
        self.nodes.push(SinglyLinkedListNode { address, data });
    }

    /// Unlinks the first node that lives at `address`, if any, and returns
    /// its data. The list must not be empty.
    pub fn remove(&mut self, address: VirtualAddress) -> (r: Option<T>)
        requires
            old(self).nodes().len() > 0,
        ensures
            forall|k: int|
                0 <= k < old(self).nodes().len() && old(self).nodes()[k].address == address
                    && (forall|j: int| 0 <= j < k ==> old(self).nodes()[j].address != address)
                    ==> final(self).nodes() == old(self).nodes().remove(k) && r == Some(
                    old(self).nodes()[k].data,
                ),
            (forall|j: int|
                0 <= j < old(self).nodes().len() ==> old(self).nodes()[j].address != address)
                ==> final(self).nodes() == old(self).nodes() && r.is_none(),
    {
        let mut i: usize = 0;
        while i < self.nodes.len()
            invariant
                i <= self.nodes@.len(),
                self.nodes@ == old(self).nodes@,
                forall|j: int| 0 <= j < i ==> self.nodes@[j].address != address,
            decreases self.nodes@.len() - i,
        {
            if self.nodes[i].address == address {
                let node = self.nodes.remove(i);
                return Some(node.data);
            }
            i = i + 1;
        }
        None
    }

    pub fn iter(&self) -> (r: SinglyLinkedListIterator<'_, T>)
        ensures
            r.list == self,
            r.index == 0,
    {
        SinglyLinkedListIterator { list: self, index: 0 }
    }

    /// The data of the tail node.
    pub fn tail(&self) -> (r: Option<&T>)
        ensures
            self.nodes().len() == 0 ==> r.is_none(),
            self.nodes().len() > 0 ==> r == Some(&self.nodes().last().data),
    {
        if self.nodes.len() == 0 {
            None
        } else {
            Some(&self.nodes[self.nodes.len() - 1].data)
        }
    }

    /// The data of the head node.
    pub fn head(&self) -> (r: Option<&T>)
        ensures
            self.nodes().len() == 0 ==> r.is_none(),
            self.nodes().len() > 0 ==> r == Some(&self.nodes()[0].data),
    {
        if self.nodes.len() == 0 {
            None
        } else {
            Some(&self.nodes[0].data)
        }
    }

    /// The data of the node at position `i`, for update in place.
    pub fn get_mut(&mut self, i: usize) -> (r: &mut T)
        requires
            i < old(self).nodes().len(),
        ensures
            *r == old(self).nodes()[i as int].data,
            final(self).nodes() == old(self).nodes().update(
                i as int,
                SinglyLinkedListNode { address: old(self).nodes()[i as int].address, data: *final(r) },
            ),
    {
        &mut self.nodes[i].data
    }

    /// The data of the node at position `i`, counted from the head.
    pub fn get(&self, i: usize) -> (r: &T)
        requires
            i < self.nodes().len(),
        ensures
            *r == self.nodes()[i as int].data,
    {
        &self.nodes[i].data
    }

    /// The address of the tail node.
    pub fn tail_node(&self) -> (r: Option<VirtualAddress>)
        ensures
            self.nodes().len() == 0 ==> r.is_none(),
            self.nodes().len() > 0 ==> r == Some(self.nodes().last().address),
    {
        if self.nodes.len() == 0 {
            None
        } else {
            Some(self.nodes[self.nodes.len() - 1].address)
        }
    }

    /// The address of the head node.
    pub fn head_node(&self) -> (r: Option<VirtualAddress>)
        ensures
            self.nodes().len() == 0 ==> r.is_none(),
            self.nodes().len() > 0 ==> r == Some(self.nodes()[0].address),
    {
        if self.nodes.len() == 0 {
            None
        } else {
            Some(self.nodes[0].address)
        }
    }

    /// Size of the link that precedes a node's data.
    pub fn list_node_size(&self) -> (r: u64)
        ensures
            r == LIST_PTR_SIZE,
    {
        LIST_PTR_SIZE
    }

    /// Size of one link.
    pub fn list_ptr_size(&self) -> (r: u64)
        ensures
            r == LIST_PTR_SIZE,
    {
        LIST_PTR_SIZE
    }
}

impl<'a, T> SinglyLinkedListIterator<'a, T> {
    /// The address of the next node, from head to tail.
    pub fn next(&mut self) -> (r: Option<VirtualAddress>)
        ensures
            final(self).list == old(self).list,
            old(self).index < old(self).list.nodes().len() ==> r == Some(
                old(self).list.nodes()[old(self).index as int].address,
            ) && final(self).index == old(self).index + 1,
            old(self).index >= old(self).list.nodes().len() ==> r.is_none() && final(self).index
                == old(self).index,
    {
        if self.index < self.list.nodes.len() {
            let a = self.list.nodes[self.index].address;
            self.index = self.index + 1;
            Some(a)
        } else {
            None
        }
    }
}

} // verus!
