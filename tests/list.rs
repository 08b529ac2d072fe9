use singly_linked_list::{Node, SinglyLinkedList};

fn values<T: Clone>(list: &SinglyLinkedList<T>) -> Vec<T> {
    let mut out = Vec::new();
    let mut at = list.head();
    while let Some(i) = at {
        let node = list.node(i).expect("a linked handle names a node");
        out.push(node.data.clone());
        at = node.next;
    }
    out
}

#[test]
fn node_new_has_no_link() {
    let node = Node::new(7u32);
    assert_eq!(node.data, 7);
    assert_eq!(node.next, None);
}

#[test]
fn new_list_is_empty() {
    let list: SinglyLinkedList<i32> = SinglyLinkedList::new();
    assert_eq!(list.len(), 0);
    assert_eq!(list.head(), None);
    assert_eq!(list.tail(), None);
    assert!(values(&list).is_empty());
    assert!(list.node(0).is_none());
}

#[test]
fn length_counts_pushes() {
    let mut list = SinglyLinkedList::new();
    for n in 0..50usize {
        assert_eq!(list.len(), n);
        list.push(n);
    }
    assert_eq!(list.len(), 50);
}

#[test]
fn traversal_keeps_push_order() {
    let mut list = SinglyLinkedList::new();
    let pushed = vec![5, -3, 5, 0, 12, 8];
    for v in &pushed {
        list.push(*v);
    }
    assert_eq!(values(&list), pushed);
}

#[test]
fn tail_is_last_and_unlinked() {
    let mut list = SinglyLinkedList::new();
    for v in 10..14u8 {
        list.push(v);
        let tail = list.tail().expect("a list with a node has a tail");
        let node = list.node(tail).expect("the tail is a node");
        assert_eq!(node.data, v);
        assert_eq!(node.next, None);
        let mut at = list.head();
        for _ in 1..list.len() {
            at = list.node(at.unwrap()).unwrap().next;
        }
        assert_eq!(at, Some(tail));
    }
}

#[test]
fn head_is_kept_after_first_push() {
    let mut list = SinglyLinkedList::new();
    list.push("first".to_string());
    let head = list.head();
    assert!(head.is_some());
    for word in ["second", "third", "fourth"] {
        list.push(word.to_string());
        assert_eq!(list.head(), head);
        assert_eq!(list.node(head.unwrap()).unwrap().data, "first");
    }
}

#[test]
fn previous_tail_links_to_new_node() {
    let mut list = SinglyLinkedList::new();
    list.push('a');
    let old_tail = list.tail().unwrap();
    list.push('b');
    let new_tail = list.tail().unwrap();
    assert_ne!(old_tail, new_tail);
    assert_eq!(list.node(old_tail).unwrap().next, Some(new_tail));
    assert_eq!(list.node(old_tail).unwrap().data, 'a');
}

#[test]
fn push_one_two_three() {
    let mut list = SinglyLinkedList::new();
    list.push(1);
    list.push(2);
    list.push(3);
    assert_eq!(list.len(), 3);
    assert_eq!(values(&list), vec![1, 2, 3]);
    let tail = list.node(list.tail().unwrap()).unwrap();
    assert_eq!(tail.data, 3);
    assert_eq!(tail.next, None);
    let printed = format!("{:?}", list);
    let one = printed.find('1').expect("1 is printed");
    let two = printed[one..].find('2').expect("2 follows 1") + one;
    assert!(printed[two..].contains('3'));
}

#[test]
fn push_single_string() {
    let mut list = SinglyLinkedList::new();
    list.push("x".to_string());
    assert_eq!(list.len(), 1);
    assert_eq!(list.head(), list.tail());
    assert!(list.head().is_some());
    assert_eq!(values(&list), vec!["x".to_string()]);
}

#[test]
fn missing_handle_gives_none() {
    let mut list = SinglyLinkedList::new();
    list.push(1u64);
    list.push(2u64);
    assert!(list.node(2).is_none());
    assert!(list.node(usize::MAX).is_none());
    assert_eq!(list.node(1).unwrap().data, 2);
}
