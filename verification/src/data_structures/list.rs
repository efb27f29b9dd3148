//! A singly linked list that owns its nodes.

use vstd::prelude::*;

verus! {

/// What follows a node, or the chain that a list holds.
pub type Link<T> = Option<Box<Node<T>>>;

/// What a list offers: a sequence that grows at both ends and shrinks at
/// the front.
pub trait List<T>: View<V = Seq<T>> + Sized {
    /// The empty list.
    fn new() -> (list: Self)
        ensures
            list@ == Seq::<T>::empty(),
    ;

    /// Number of elements.
    fn len(&self) -> (len: u32)
        ensures
            len == self@.len(),
    ;

    /// Whether the list holds no element.
    fn is_empty(&self) -> (empty: bool)
        ensures
            empty == (self@.len() == 0),
    ;

    /// Puts `elem` before all others.
    fn add_first(&mut self, elem: T)
        requires
            old(self)@.len() < u32::MAX,
        ensures
            final(self)@ == seq![elem] + old(self)@,
    ;

    /// Puts `elem` behind all others.
    fn add_last(&mut self, elem: T)
        requires
            old(self)@.len() < u32::MAX,
        ensures
            final(self)@ == old(self)@.push(elem),
    ;

    /// Takes the first element out, if there is one.
    fn remove_first(&mut self) -> (first: Option<T>)
        ensures
            match first {
                Some(elem) => {
                    &&& old(self)@.len() > 0
                    &&& elem == old(self)@[0]
                    &&& final(self)@ == old(self)@.skip(1)
                },
                None => old(self)@.len() == 0 && final(self)@ == old(self)@,
            },
    ;
}

/// One element and what follows it.
pub struct Node<T> {
    data: T,
    next: Link<T>,
}

/// The elements of a chain, in order.
pub closed spec fn chain<T>(link: Link<T>) -> Seq<T>
    decreases link,
{
    match link {
        None => Seq::empty(),
        Some(node) => seq![node.data] + chain(node.next),
    }
}

impl<T> View for Node<T> {
    type V = Seq<T>;

    /// The element of this node, then those of the nodes that follow.
    closed spec fn view(&self) -> Seq<T> {
        seq![self.data] + chain(self.next)
    }
}

/// The chain that starts with a node holds what that node holds.
pub proof fn lemma_chain<T>(link: Link<T>)
    ensures
        chain(link) == match link {
            None => Seq::<T>::empty(),
            Some(node) => node@,
        },
        link is Some ==> chain(link).len() > 0,
{
}

impl<T> Node<T> {
    /// A node with nothing behind it.
    pub fn new(data: T) -> (node: Node<T>)
        ensures
            node@ == seq![data],
    {
        Node { data: data, next: None }
    }

    /// Puts the chain `next` behind this node and hands back what was
    /// there before.
    pub fn link(&mut self, next: Box<Node<T>>) -> (before: Link<T>)
        ensures
            final(self)@ == seq![old(self)@[0]] + next@,
            chain(before) == old(self)@.skip(1),
    {
        let prev_next: Option<Box<Node<T>>> = self.next.take();
        self.next = Some(next);
        proof {
            assert(old(self)@.skip(1) =~= chain(prev_next));
        }
        prev_next
    }

    /// Cuts off what follows this node and hands it back.
    pub fn remove(&mut self) -> (behind: Link<T>)
        ensures
            final(self)@ == seq![old(self)@[0]],
            chain(behind) == old(self)@.skip(1),
    {
        let next_node = self.next.take();
        self.next = None;
        proof {
            assert(old(self)@.skip(1) =~= chain(next_node));
        }
        next_node
    }

    /// The element of this node.
    pub fn data(&self) -> (data: &T)
        ensures
            self@.len() > 0,
            *data == self@[0],
    {
        &self.data
    }

    /// What follows this node.
    pub fn next(&self) -> (behind: &Link<T>)
        ensures
            chain(*behind) == self@.skip(1),
            self@.len() > 0,
    {
        proof {
            assert(self@.skip(1) =~= chain(self.next));
        }
        &self.next
    }
}

/// Puts `elem` at the end of a chain.
fn append<T>(link: &mut Link<T>, elem: T)
    ensures
        chain(*final(link)) == chain(*old(link)).push(elem),
    decreases *old(link),
{
    match link {
        None => {
            *link = Some(Box::new(Node { data: elem, next: None }));
            proof {
                assert(chain(*link) =~= chain(None::<Box<Node<T>>>).push(elem));
            }
        },
        Some(node) => {
            let ghost before = chain(node.next);
            let ghost first = node.data;
            append(&mut node.next, elem);
            proof {
                assert(seq![first] + before.push(elem) =~= (seq![first] + before).push(elem));
            }
        },
    }
}

/// The first element of a chain, if there is one, to be changed in place.
fn first_mut<T>(link: &mut Link<T>) -> (first: Option<&mut T>)
    ensures
        match first {
            Some(elem) => {
                &&& chain(*old(link)).len() > 0
                &&& *elem == chain(*old(link))[0]
                &&& chain(*final(link)) == chain(*old(link)).update(0, *final(elem))
            },
            None => chain(*old(link)).len() == 0 && chain(*final(link)) == chain(*old(link)),
        },
    no_unwind
{
    match link {
        Some(node) => {
            let ghost behind = chain(node.next);
            proof {
                assert forall|x: T| (seq![x] + behind) =~= (seq![node.data] + behind).update(0, x) by {}
            }
            Some(&mut node.data)
        },
        None => None,
    }
}

/// Takes the chain out of the two fields of a list and leaves them empty.
fn detach<T>(head: &mut Link<T>, size: &mut u32) -> (held: Link<T>)
    ensures
        *final(head) == None::<Box<Node<T>>>,
        *final(size) == 0,
        held == *old(head),
    opens_invariants none
    no_unwind
{
    let mut held: Link<T> = None;
    core::mem::swap(head, &mut held);
    *size = 0;
    held
}

/// Cuts off what follows a node and hands it back.
fn unlink<T>(node: &mut Node<T>) -> (behind: Link<T>)
    ensures
        behind == old(node).next,
        final(node).next == None::<Box<Node<T>>>,
        final(node).data == old(node).data,
    opens_invariants none
    no_unwind
{
    let mut behind: Link<T> = None;
    core::mem::swap(&mut node.next, &mut behind);
    behind
}

/// A singly linked list with its length.
pub struct LinkedList<T> {
    head: Link<T>,
    size: u32,
}

impl<T> View for LinkedList<T> {
    type V = Seq<T>;

    closed spec fn view(&self) -> Seq<T> {
        chain(self.head)
    }
}

impl<T> LinkedList<T> {
    #[verifier::type_invariant]
    spec fn well_formed(self) -> bool {
        self.size == chain(self.head).len()
    }

    /// Empties the list and hands back its chain and its length.
    fn take_all(&mut self) -> (held: (Link<T>, u32))
        ensures
            chain(held.0) == old(self)@,
            held.1 == old(self)@.len(),
            final(self)@ == Seq::<T>::empty(),
    {
        proof {
            use_type_invariant(&*self);
        }
        let size = self.size;
        let head = detach(&mut self.head, &mut self.size);
        (head, size)
    }

    /// The first element, if there is one.
    pub fn peek(&self) -> (first: Option<&T>)
        ensures
            match first {
                Some(elem) => self@.len() > 0 && *elem == self@[0],
                None => self@.len() == 0,
            },
    {
        match &self.head {
            Some(node) => Some(&node.data),
            None => None,
        }
    }

    /// The first element, if there is one, to be changed in place.
    pub fn peek_mut(&mut self) -> (first: Option<&mut T>)
        ensures
            match first {
                Some(elem) => {
                    &&& old(self)@.len() > 0
                    &&& *elem == old(self)@[0]
                    &&& final(self)@ == old(self)@.update(0, *final(elem))
                },
                None => old(self)@.len() == 0 && final(self)@ == old(self)@,
            },
    {
        proof {
            use_type_invariant(&*self);
        }
        first_mut(&mut self.head)
    }
}

impl<T> Drop for LinkedList<T> {
    /// Takes the chain apart node by node, so that a long list is not
    /// dropped by recursion.
    fn drop(&mut self)
        opens_invariants none
        no_unwind
    {
        let mut current = detach(&mut self.head, &mut self.size);
        loop
            decreases chain(current).len(),
        {
            match current {
                Some(mut node_box) => {
                    current = unlink(&mut node_box);
                },
                None => {
                    break ;
                },
            }
        }
    }
}

impl<T> List<T> for LinkedList<T> {
    fn new() -> (list: Self) {
        LinkedList { head: None, size: 0 }
    }

    fn len(&self) -> (len: u32) {
        proof {
            use_type_invariant(self);
        }
        self.size
    }

    fn is_empty(&self) -> (empty: bool) {
        proof {
            use_type_invariant(self);
        }
        match self.size {
            0 => true,
            _ => false,
        }
    }

    fn add_first(&mut self, elem: T) {
        let (head, size) = self.take_all();
        let new_node: Box<Node<T>> = Box::new(Node { data: elem, next: head });
        *self = LinkedList { head: Some(new_node), size: size + 1 };
    }

    fn add_last(&mut self, elem: T) {
        let (mut head, size) = self.take_all();
        append(&mut head, elem);
        *self = LinkedList { head, size: size + 1 };
    }

    fn remove_first(&mut self) -> (first: Option<T>) {
        let (head, size) = self.take_all();
        match head {
            Some(node) => {
                let node = *node;
                proof {
                    assert((seq![node.data] + chain(node.next)).skip(1) =~= chain(node.next));
                }
                *self = LinkedList { head: node.next, size: size - 1 };
                Some(node.data)
            },
            None => None,
        }
    }
}

} // verus!
