use rs_algorithm_practise::data_structure::doubly_linked_list::DoublyLinkedList;
use rs_algorithm_practise::data_structure::linked_list::LinkedList;
use rs_algorithm_practise::data_structure::queue::Queue;
use rs_algorithm_practise::data_structure::stack::Stack;

fn dll_of(items: &[i32]) -> DoublyLinkedList<i32> {
    let mut l = DoublyLinkedList::new();
    for x in items {
        l.push_back(*x);
    }
    l
}

fn ll_of(items: &[i32]) -> LinkedList<i32> {
    let mut l = LinkedList::new();
    for x in items.iter().rev() {
        l.push_front(*x);
    }
    l
}

fn ll_items(l: &mut LinkedList<i32>) -> Vec<i32> {
    let mut out = Vec::new();
    while let Some(x) = l.pop_front() {
        out.push(x);
    }
    out
}

#[test]
fn test_eq() {
    let empty_list: DoublyLinkedList<i32> = dll_of(&[]);
    let empty_list_2: DoublyLinkedList<i32> = dll_of(&[]);
    assert_eq!(empty_list, empty_list_2);
    assert_eq!(dll_of(&[1, 2]), dll_of(&[1, 2]));
    assert_ne!(dll_of(&[]), dll_of(&[1]));
    assert_ne!(dll_of(&[1, 2]), dll_of(&[1]));
}

#[test]
fn test_doubly_linked_list() {
    let mut dll = DoublyLinkedList::new();
    dll.push_front(1);
    dll.push_front(2);
    dll.push_front(3);
    dll.push_back(4);
    dll.push_back(5);
    dll.push_back(6);

    assert_eq!(dll_of(&[3, 2, 1, 4, 5, 6]), dll)
}

#[test]
fn test_pop() {
    let mut dll: DoublyLinkedList<i32> = dll_of(&[1, 2, 3, 4]);
    let a = dll.pop_front();
    assert_eq!(a, Some(1));
    let b = dll.pop_back();
    assert_eq!(b, Some(4));
}

#[test]
fn test_pop_back() {
    let mut dll = dll_of(&[1, 2, 3, 4]);
    assert_eq!(dll.pop_back(), Some(4));
    assert_eq!(dll.pop_back(), Some(3));
    assert_eq!(dll.pop_back(), Some(2));
    assert_eq!(dll.pop_back(), Some(1));
    assert_eq!(dll.pop_back(), None);
    assert_eq!(dll, dll_of(&[]));
}

#[test]
fn test_pop_empty() {
    let mut dll: DoublyLinkedList<i32> = DoublyLinkedList::new();
    let a = dll.pop_front();
    assert_eq!(a, None);
    let b = dll.pop_back();
    assert_eq!(b, None);
}

#[test]
fn dll_is_empty() {
    let mut dll = DoublyLinkedList::new();
    assert!(dll.is_empty());
    dll.push_back(1);
    assert!(!dll.is_empty());
}

#[test]
fn queue_test() {
    let mut q = Queue::new();
    q.enqueue(12);
    q.enqueue(13);

    assert_eq!(q.dequeue(), Some(12));
    assert_eq!(q.dequeue(), Some(13));
    assert_eq!(q.dequeue(), None);
    assert!(q.is_empty());
}

#[test]
fn test_stack() {
    let mut stack = Stack::new();
    assert!(stack.is_empty());

    stack.push(1);
    stack.push(2);
    stack.push(3);

    assert_eq!(stack.size(), 3);
    assert_eq!(stack.peek(), Some(&3));

    assert_eq!(stack.pop(), Some(3));
    assert_eq!(stack.pop(), Some(2));
    assert_eq!(stack.pop(), Some(1));
    assert!(stack.is_empty());
}

#[test]
fn stack_empty_edges() {
    let mut stack: Stack<i32> = Stack::default();
    assert_eq!(stack.peek(), None);
    assert_eq!(stack.pop(), None);
    assert_eq!(stack.size(), 0);
}

#[test]
fn test_linked_list() {
    let mut ll = LinkedList::new();
    ll.push_front(12_usize);
    ll.push_back(13_usize);
    ll.push_front(11_usize);
    println!("{:?}", ll);
    let v = ll.pop_front().unwrap();
    println!("popped value: {}, linked list: {:?}", v, ll);
    let v = ll.pop_front().unwrap();
    println!("popped value: {}, linked list: {:?}", v, ll);
    let v = ll.pop_front().unwrap();
    println!("popped value: {}, linked list: {:?}", v, ll);
    assert_eq!(None, ll.pop_front());
    assert_eq!(None, ll.pop_front());
}

#[test]
fn test_insert() {
    let mut ll = LinkedList::new();
    ll.push_front(4);
    ll.push_front(3);
    ll.push_front(2);
    ll.push_front(1);

    ll.insert(0, 0);
    println!("{:?}", ll);
    ll.insert(5, 5);
    println!("{:?}", ll);
    assert_eq!(ll_items(&mut ll), vec![0, 1, 2, 3, 4, 5]);
}

#[test]
fn linked_list_insert_middle() {
    let mut ll = ll_of(&[1, 2, 4]);
    ll.insert(3, 2);
    assert_eq!(ll.peak(), Some(&1));
    assert_eq!(ll_items(&mut ll), vec![1, 2, 3, 4]);
    assert!(ll.is_empty());
    assert_eq!(ll.peak(), None);
}

#[test]
fn test_macro() {
    let ll: LinkedList<i32> = ll_of(&[1, 2, 3]);
    println!("{:?}", ll);
}

#[test]
fn skip_list_test() {
    assert_eq!(1 + 1, 2);
}
