//! A persistent singly linked list whose versions share their nodes, and a
//! list that grows and shrinks at both ends.

use std::collections::VecDeque;
use std::rc::Rc;
use vstd::prelude::*;

verus! {

/// What follows a node, or the chain that a list holds.
pub type Link<T> = Option<Rc<Node<T>>>;

/// Node for a singly-linked list.
pub struct Node<T> {
    data: T,
    next: Link<T>,
}

/// The elements of a chain, in order.
pub closed spec fn chain<T>(link: Link<T>) -> Seq<T>
    decreases link,
{
    match link {
        None => Seq::empty(),
        Some(node) => seq![node.data] + chain(node.next),
    }
}

impl<T> View for Node<T> {
    type V = Seq<T>;

    /// The element of this node, then those of the nodes that follow.
    closed spec fn view(&self) -> Seq<T> {
        seq![self.data] + chain(self.next)
    }
}

/// The chain that starts with a node holds what that node holds.
pub proof fn lemma_chain<T>(link: Link<T>)
    ensures
        chain(link) == match link {
            None => Seq::<T>::empty(),
            Some(node) => node@,
        },
        link is Some ==> chain(link).len() > 0,
{
}

/// `Rc::clone`: a second handle on the same allocation, so on the same
/// value.
#[verifier::external_body]
fn share<T>(node: &Rc<Node<T>>) -> (same: Rc<Node<T>>)
    ensures
        same == *node,
{
    Rc::clone(node)
}

/// A second handle on a chain.
fn share_link<T>(link: &Link<T>) -> (same: Link<T>)
    ensures
        same == *link,
{
    match link {
        Some(node) => Some(share(node)),
        None => None,
    }
}

impl<T> Node<T> {
    /// A node with nothing behind it.
    pub fn new(data: T) -> (node: Node<T>)
        ensures
            node@ == seq![data],
    {
        Node { data: data, next: None }
    }

    /// The element of this node.
    pub fn data(&self) -> (data: &T)
        ensures
            self@.len() > 0,
            *data == self@[0],
    {
        &self.data
    }

    /// What follows this node.
    pub fn next(&self) -> (behind: &Link<T>)
        ensures
            chain(*behind) == self@.skip(1),
            self@.len() > 0,
    {
        proof {
            assert(self@.skip(1) =~= chain(self.next));
        }
        &self.next
    }
}

/// Singly-linked list that is never changed: adding in front and taking
/// the tail give new lists, which share the nodes of the old one.
pub struct LinkedList<T> {
    head: Link<T>,
    size: usize,
}

impl<T> View for LinkedList<T> {
    type V = Seq<T>;

    closed spec fn view(&self) -> Seq<T> {
        chain(self.head)
    }
}

impl<T> LinkedList<T> {
    #[verifier::type_invariant]
    spec fn well_formed(self) -> bool {
        self.size == chain(self.head).len()
    }

    /// The empty list.
    pub fn new() -> (list: Self)
        ensures
            list@ == Seq::<T>::empty(),
    {
        LinkedList { head: None, size: 0 }
    }

    /// Number of elements.
    pub fn len(&self) -> (len: usize)
        ensures
            len == self@.len(),
    {
        proof {
            use_type_invariant(self);
        }
        self.size
    }

    /// Whether the list holds no element.
    pub fn is_empty(&self) -> (empty: bool)
        ensures
            empty == (self@.len() == 0),
    {
        proof {
            use_type_invariant(self);
        }
        self.size == 0
    }

    /// The first element, if there is one.
    pub fn head(&self) -> (first: Option<&T>)
        ensures
            match first {
                Some(elem) => self@.len() > 0 && *elem == self@[0],
                None => self@.len() == 0,
            },
    {
        match &self.head {
            Some(node) => Some(&node.data),
            None => None,
        }
    }

    /// The list without its first element; there has to be one.
    pub fn tail(&self) -> (rest: LinkedList<T>)
        requires
            self@.len() > 0,
        ensures
            rest@ == self@.skip(1),
    {
        proof {
            use_type_invariant(self);
        }
        match &self.head {
            Some(node) => {
                proof {
                    assert((seq![node.data] + chain(node.next)).skip(1) =~= chain(node.next));
                }
                LinkedList { head: share_link(&node.next), size: self.size - 1 }
            },
            None => LinkedList { head: None, size: 0 },
        }
    }

    /// The list with `data` put before its elements.
    pub fn add_front(&self, data: T) -> (longer: LinkedList<T>)
        requires
            self@.len() < usize::MAX,
        ensures
            longer@ == seq![data] + self@,
    {
        proof {
            use_type_invariant(self);
        }
        LinkedList {
            head: Some(Rc::new(Node { data: data, next: share_link(&self.head) })),
            size: self.size + 1,
        }
    }
}

/// Takes the chain out of the two fields of a list and leaves them empty.
fn detach<T>(head: &mut Link<T>, size: &mut usize) -> (held: Link<T>)
    ensures
        *final(head) == None::<Rc<Node<T>>>,
        *final(size) == 0,
        held == *old(head),
    opens_invariants none
    no_unwind
{
    let mut held: Link<T> = None;
    core::mem::swap(head, &mut held);
    *size = 0;
    held
}

/// Cuts off what follows a node and hands it back.
fn unlink<T>(node: &mut Node<T>) -> (behind: Link<T>)
    ensures
        behind == old(node).next,
        final(node).next == None::<Rc<Node<T>>>,
        final(node).data == old(node).data,
    opens_invariants none
    no_unwind
{
    let mut behind: Link<T> = None;
    core::mem::swap(&mut node.next, &mut behind);
    behind
}

/// `Rc::try_unwrap`: the value itself where this is the only handle on it,
/// else the handle back. It does not panic.
#[verifier::external_body]
fn sole<T>(node: Rc<Node<T>>) -> (got: Result<Node<T>, Rc<Node<T>>>)
    ensures
        match got {
            Ok(inner) => inner == *node,
            Err(same) => same == node,
        },
    opens_invariants none
    no_unwind
{
    Rc::try_unwrap(node)
}

impl<T> Drop for LinkedList<T> {
    /// Takes the chain apart node by node as far as no other list shares
    /// it, so that a long list is not dropped by recursion.
    fn drop(&mut self)
        opens_invariants none
        no_unwind
    {
        let mut current = detach(&mut self.head, &mut self.size);
        loop
            decreases chain(current).len(),
        {
            match current {
                Some(node) => {
                    match sole(node) {
                        Ok(mut node) => {
                            current = unlink(&mut node);
                        },
                        Err(_) => {
                            break ;
                        },
                    }
                },
                None => {
                    break ;
                },
            }
        }
    }
}

/// `VecDeque::front_mut`: the first element, if there is one, to be
/// changed in place; nothing else changes.
#[verifier::external_body]
fn front_mut<T>(items: &mut VecDeque<T>) -> (first: Option<&mut T>)
    ensures
        match first {
            Some(elem) => {
                &&& old(items)@.len() > 0
                &&& *elem == old(items)@[0]
                &&& final(items)@ == old(items)@.update(0, *final(elem))
            },
            None => old(items)@.len() == 0 && final(items)@ == old(items)@,
        },
{
    items.front_mut()
}

/// `VecDeque::back_mut`: the last element, if there is one, to be changed
/// in place; nothing else changes.
#[verifier::external_body]
fn back_mut<T>(items: &mut VecDeque<T>) -> (last: Option<&mut T>)
    ensures
        match last {
            Some(elem) => {
                &&& old(items)@.len() > 0
                &&& *elem == old(items)@.last()
                &&& final(items)@ == old(items)@.update(old(items)@.len() - 1, *final(elem))
            },
            None => old(items)@.len() == 0 && final(items)@ == old(items)@,
        },
{
    items.back_mut()
}

/// A list that grows and shrinks at both ends.
pub struct DoublyLinkedList<T> {
    items: VecDeque<T>,
}

impl<T> View for DoublyLinkedList<T> {
    type V = Seq<T>;

    closed spec fn view(&self) -> Seq<T> {
        self.items@
    }
}

impl<T> DoublyLinkedList<T> {
    /// The empty list.
    pub fn new() -> (list: Self)
        ensures
            list@ == Seq::<T>::empty(),
    {
        DoublyLinkedList { items: VecDeque::new() }
    }

    /// Number of elements.
    pub fn len(&self) -> (len: usize)
        ensures
            len == self@.len(),
    {
        self.items.len()
    }

    /// Puts `data` before all others.
    pub fn add_front(&mut self, data: T)
        ensures
            final(self)@ == seq![data] + old(self)@,
    {
        self.items.push_front(data);
    }

    /// Puts `data` behind all others.
    pub fn add_tail(&mut self, data: T)
        ensures
            final(self)@ == old(self)@.push(data),
    {
        self.items.push_back(data);
    }

    /// Takes the first element out, if there is one.
    pub fn remove_head(&mut self) -> (first: Option<T>)
        ensures
            match first {
                Some(elem) => {
                    &&& old(self)@.len() > 0
                    &&& elem == old(self)@[0]
                    &&& final(self)@ == old(self)@.skip(1)
                },
                None => old(self)@.len() == 0 && final(self)@ == old(self)@,
            },
    {
        let first = self.items.pop_front();
        proof {
            if first is Some {
                assert(old(self)@.skip(1) =~= old(self)@.subrange(1, old(self)@.len() as int));
            }
        }
        first
    }

    /// Takes the last element out, if there is one.
    pub fn remove_tail(&mut self) -> (last: Option<T>)
        ensures
            match last {
                Some(elem) => {
                    &&& old(self)@.len() > 0
                    &&& elem == old(self)@.last()
                    &&& final(self)@ == old(self)@.drop_last()
                },
                None => old(self)@.len() == 0 && final(self)@ == old(self)@,
            },
    {
        self.items.pop_back()
    }

    /// The first element, if there is one.
    pub fn peek_head(&self) -> (first: Option<&T>)
        ensures
            match first {
                Some(elem) => self@.len() > 0 && *elem == self@[0],
                None => self@.len() == 0,
            },
    {
        if self.items.len() > 0 {
            Some(&self.items[0])
        } else {
            None
        }
    }

    /// The first element, if there is one, to be changed in place.
    pub fn peek_head_mut(&mut self) -> (first: Option<&mut T>)
        ensures
            match first {
                Some(elem) => {
                    &&& old(self)@.len() > 0
                    &&& *elem == old(self)@[0]
                    &&& final(self)@ == old(self)@.update(0, *final(elem))
                },
                None => old(self)@.len() == 0 && final(self)@ == old(self)@,
            },
    {
        front_mut(&mut self.items)
    }

    /// The last element, if there is one.
    pub fn peek_tail(&self) -> (last: Option<&T>)
        ensures
            match last {
                Some(elem) => self@.len() > 0 && *elem == self@.last(),
                None => self@.len() == 0,
            },
    {
        let len = self.items.len();
        if len > 0 {
            Some(&self.items[len - 1])
        } else {
            None
        }
    }

    /// The last element, if there is one, to be changed in place.
    pub fn peek_tail_mut(&mut self) -> (last: Option<&mut T>)
        ensures
            match last {
                Some(elem) => {
                    &&& old(self)@.len() > 0
                    &&& *elem == old(self)@.last()
                    &&& final(self)@ == old(self)@.update(old(self)@.len() - 1, *final(elem))
                },
                None => old(self)@.len() == 0 && final(self)@ == old(self)@,
            },
    {
        back_mut(&mut self.items)
    }
}

} // verus!
