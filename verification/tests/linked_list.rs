use proximity::linked_list::DoublyLinkedList;
use proximity::list_node::Node;

#[test]
fn test_add_to_head() {
    let mut list: DoublyLinkedList<i32, i32> = DoublyLinkedList::new();

    list.add_to_head(Node::new(1, 10));
    assert_eq!(list.head_key(), Some(&1));
    assert_eq!(list.tail_key(), Some(&1));

    list.add_to_head(Node::new(2, 20));
    assert_eq!(list.head_key(), Some(&2));
    assert_eq!(list.tail_key(), Some(&1));
}

#[test]
fn test_remove_node() {
    let mut list: DoublyLinkedList<i32, i32> = DoublyLinkedList::new();

    let node1 = list.add_to_head(Node::new(1, 10));
    let node2 = list.add_to_head(Node::new(2, 20));
    let node3 = list.add_to_head(Node::new(3, 30));

    // List is now: {3, 2, 1}
    list.remove(node2);
    // List should now be: {3, 1}
    assert_eq!(list.head_key(), Some(&3));
    assert_eq!(list.tail_key(), Some(&1));

    list.remove(node3);
    // List should now be: {1}
    assert_eq!(list.head_key(), Some(&1));
    assert_eq!(list.tail_key(), Some(&1));

    list.remove(node1);
    // List should now be empty
    assert!(list.head_key().is_none());
    assert!(list.tail_key().is_none());
}

#[test]
fn test_remove_tail() {
    let mut list: DoublyLinkedList<i32, i32> = DoublyLinkedList::new();

    list.add_to_head(Node::new(1, 10));
    list.add_to_head(Node::new(2, 20));

    // List is now: {2, 1}
    let removed_tail = list.remove_tail().unwrap();
    assert_eq!(removed_tail.key, 1);
    // List should now be: {2}
    assert_eq!(list.head_key(), Some(&2));
    assert_eq!(list.tail_key(), Some(&2));

    let removed_tail = list.remove_tail().unwrap();
    assert_eq!(removed_tail.key, 2);
    // List should now be empty
    assert!(list.head_key().is_none());
    assert!(list.tail_key().is_none());
}

#[test]
fn test_add_and_remove_combination() {
    let mut list: DoublyLinkedList<i32, i32> = DoublyLinkedList::new();

    let node1 = list.add_to_head(Node::new(1, 10));
    list.add_to_head(Node::new(2, 20));
    list.add_to_head(Node::new(3, 30));

    // List is now: {3, 2, 1}
    assert_eq!(list.head_key(), Some(&3));
    assert_eq!(list.tail_key(), Some(&1));

    list.remove(node1);
    // List should now be: {3, 2}
    assert_eq!(list.head_key(), Some(&3));
    assert_eq!(list.tail_key(), Some(&2));

    list.add_to_head(Node::new(1, 10));
    // List should now be: {1, 3, 2}
    assert_eq!(list.head_key(), Some(&1));
    assert_eq!(list.tail_key(), Some(&2));
}

#[test]
fn slab_reuses_vacated_slots() {
    let mut list: DoublyLinkedList<i32, i32> = DoublyLinkedList::new();
    let a = list.add_to_head(Node::new(1, 10));
    list.add_to_head(Node::new(2, 20));
    list.remove(a);
    let c = list.add_to_head(Node::new(3, 30));
    assert_eq!(a, c);
    assert_eq!(list.head_key(), Some(&3));
    assert_eq!(list.tail_key(), Some(&2));
}
