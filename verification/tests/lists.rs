use algorithms::data_structures::list::{LinkedList as OwningList, List, Node as OwningNode};
use algorithms::data_structures::lists::{DoublyLinkedList, LinkedList, Node};

#[test]
fn peek() {
    let mut slist = OwningList::new();

    assert_eq!(slist.peek(), None);
    assert_eq!(slist.peek_mut(), None);

    slist.add_first(1);
    slist.add_first(2);
    slist.add_first(3);

    assert_eq!(slist.peek(), Some(&3));
    assert_eq!(slist.peek_mut(), Some(&mut 3));

    slist.peek_mut().map(|val| *val = 42);

    assert_eq!(slist.peek(), Some(&42));
    assert_eq!(slist.peek_mut(), Some(&mut 42));
}

#[test]
fn add_remove_single() {
    let list: LinkedList<usize> = LinkedList::new();
    assert!(list.head().is_none());

    let list = list.add_front(1).add_front(2).add_front(3);
    assert_eq!(list.head(), Some(&3));
    let list = list.tail();
    assert_eq!(list.head(), Some(&2));
    let list = list.tail();
    assert_eq!(list.head(), Some(&1));
    let list = list.tail();
    assert_eq!(list.head(), None);
}

#[test]
fn peek_double() {
    let mut dlist: DoublyLinkedList<usize> = DoublyLinkedList::new();
    assert!(dlist.peek_head().is_none());
    assert!(dlist.peek_tail().is_none());
    assert!(dlist.peek_head_mut().is_none());
    assert!(dlist.peek_tail_mut().is_none());

    dlist.add_front(1);
    dlist.add_front(2);
    dlist.add_front(3);

    assert_eq!(&*dlist.peek_head().unwrap(), &3);
    assert_eq!(&*dlist.peek_tail().unwrap(), &1);
    assert_eq!(&*dlist.peek_head_mut().unwrap(), &mut 3);
    assert_eq!(&*dlist.peek_tail_mut().unwrap(), &mut 1);
}

#[test]
fn add_remove_double() {
    let mut dlist: DoublyLinkedList<usize> = DoublyLinkedList::new();
    assert_eq!(dlist.remove_head(), None);

    dlist.add_front(1);
    dlist.add_front(2);
    dlist.add_front(3);

    assert_eq!(dlist.remove_head(), Some(3));
    assert_eq!(dlist.remove_head(), Some(2));

    dlist.add_tail(4);
    dlist.add_tail(5);

    assert_eq!(dlist.remove_head(), Some(1));
    assert_eq!(dlist.remove_tail(), Some(5));
    assert_eq!(dlist.remove_tail(), Some(4));
    assert_eq!(dlist.remove_head(), None);
    assert_eq!(dlist.remove_tail(), None);
}

#[test]
fn owning_list_grows_at_both_ends_and_shrinks_at_the_front() {
    let mut list: OwningList<i32> = OwningList::new();
    assert!(list.is_empty());
    assert_eq!(list.len(), 0);
    assert_eq!(list.remove_first(), None);
    assert_eq!(list.len(), 0);

    list.add_last(2);
    list.add_first(1);
    list.add_last(3);
    list.add_last(4);
    assert!(!list.is_empty());
    assert_eq!(list.len(), 4);

    assert_eq!(list.remove_first(), Some(1));
    assert_eq!(list.remove_first(), Some(2));
    assert_eq!(list.len(), 2);
    assert_eq!(list.peek(), Some(&3));
    assert_eq!(list.remove_first(), Some(3));
    assert_eq!(list.remove_first(), Some(4));
    assert_eq!(list.remove_first(), None);
    assert!(list.is_empty());
}

#[test]
fn changing_the_first_element_leaves_the_rest() {
    let mut list: OwningList<i32> = OwningList::new();
    list.add_last(1);
    list.add_last(2);
    if let Some(first) = list.peek_mut() {
        *first = 10;
    }
    assert_eq!(list.len(), 2);
    assert_eq!(list.remove_first(), Some(10));
    assert_eq!(list.remove_first(), Some(2));
}

#[test]
fn owning_nodes_link_and_unlink() {
    let mut node = OwningNode::new(1);
    assert_eq!(*node.data(), 1);
    assert!(node.next().is_none());

    assert!(node.link(Box::new(OwningNode::new(2))).is_none());
    assert_eq!(*node.next().as_ref().unwrap().data(), 2);

    let before = node.link(Box::new(OwningNode::new(3))).unwrap();
    assert_eq!(*before.data(), 2);
    assert_eq!(*node.next().as_ref().unwrap().data(), 3);

    let behind = node.remove().unwrap();
    assert_eq!(*behind.data(), 3);
    assert!(node.next().is_none());
    assert!(node.remove().is_none());
    assert_eq!(*node.data(), 1);
}

#[test]
fn persistent_list_keeps_its_old_versions() {
    let empty: LinkedList<u8> = LinkedList::new();
    assert!(empty.is_empty());
    assert_eq!(empty.len(), 0);

    let one = empty.add_front(1);
    let two = one.add_front(2);
    let other = one.add_front(9);
    assert_eq!(two.len(), 2);
    assert_eq!(other.len(), 2);
    assert_eq!(one.len(), 1);
    assert!(empty.is_empty());
    assert!(!two.is_empty());

    assert_eq!(two.head(), Some(&2));
    assert_eq!(other.head(), Some(&9));
    assert_eq!(two.tail().head(), Some(&1));
    assert_eq!(other.tail().head(), Some(&1));
    assert_eq!(two.tail().len(), 1);
    assert!(two.tail().tail().is_empty());
}

#[test]
fn shared_node_tells_its_element() {
    let node = Node::new(7);
    assert_eq!(*node.data(), 7);
    assert!(node.next().is_none());
}

#[test]
fn two_ended_list_counts_its_elements() {
    let mut list: DoublyLinkedList<i32> = DoublyLinkedList::new();
    assert_eq!(list.len(), 0);
    list.add_tail(1);
    list.add_front(0);
    list.add_tail(2);
    assert_eq!(list.len(), 3);
    assert_eq!(list.peek_head(), Some(&0));
    assert_eq!(list.peek_tail(), Some(&2));

    if let Some(first) = list.peek_head_mut() {
        *first = 10;
    }
    if let Some(last) = list.peek_tail_mut() {
        *last = 20;
    }
    assert_eq!(list.len(), 3);
    assert_eq!(list.remove_head(), Some(10));
    assert_eq!(list.remove_tail(), Some(20));
    assert_eq!(list.remove_tail(), Some(1));
    assert_eq!(list.len(), 0);
}

#[test]
fn a_long_owning_list_is_dropped_without_deep_recursion() {
    let mut list: OwningList<u64> = OwningList::new();
    for i in 0..300_000 {
        list.add_first(i);
    }
    assert_eq!(list.len(), 300_000);
    assert_eq!(list.peek(), Some(&299_999));
    drop(list);
}

#[test]
fn a_long_persistent_list_is_dropped_without_deep_recursion() {
    let mut list: LinkedList<u64> = LinkedList::new();
    for i in 0..300_000 {
        list = list.add_front(i);
    }
    assert_eq!(list.len(), 300_000);
    let shared = list.tail();
    drop(list);
    assert_eq!(shared.len(), 299_999);
    assert_eq!(shared.head(), Some(&299_998));
    drop(shared);
}
