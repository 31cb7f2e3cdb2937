use rs_algorithm_practise::data_structure::heap::{heap_sort, Heap, MaxHeap, Min, PriorityQueue};

#[test]
fn test_new() {
    let pq = PriorityQueue::<i32>::new();
    println!("{}", pq.len());
}

#[test]
fn test_push_and_pop() {
    let mut pq = PriorityQueue::<i32>::new();
    pq.push(3);
    pq.push(2);
    pq.push(1);
    assert_eq!(vec![1, 3, 2], pq.clone().into_inner());
    assert_eq!(Some(1), pq.pop());
    assert_eq!(Some(2), pq.pop());
    assert_eq!(Some(3), pq.pop());
    assert_eq!(None, pq.pop());
}

#[test]
fn test_heap_sort() {
    let mut v = vec![0, 12, 34, 34, 23, 1];
    heap_sort(&mut v);
    assert_eq!(vec![0, 1, 12, 23, 34, 34], v);
}

#[test]
fn heap_sort_edges() {
    let mut v: Vec<i32> = vec![];
    heap_sort(&mut v);
    assert!(v.is_empty());
    let mut w = vec![5, -1, 5, 0, -7, 3, 3];
    heap_sort(&mut w);
    assert_eq!(w, vec![-7, -1, 0, 3, 3, 5, 5]);
}

#[test]
fn heap_index_helpers() {
    assert_eq!(Heap::<i32, Min>::parent_index(0), 0);
    assert_eq!(Heap::<i32, Min>::parent_index(5), 2);
    assert_eq!(Heap::<i32, Min>::leftchild_index(3), 7);
    assert_eq!(Heap::<i32, Min>::rightchild_index(3), 8);
}

#[test]
fn heap_accessors() {
    let mut pq = PriorityQueue::<i32>::new();
    assert!(pq.is_empty());
    assert_eq!(pq.peek(), None);
    for x in [5, 9, 7, 10] {
        pq.push(x);
    }
    assert_eq!(pq.peek(), Some(&5));
    assert_eq!(pq.get_node(1), Some(&9));
    assert_eq!(pq.get_parent(0), None);
    assert_eq!(pq.get_parent(3), Some(&9));
    assert_eq!(pq.get_leftchild(0), Some(&9));
    assert_eq!(pq.get_rightchild(0), Some(&7));
    assert_eq!(pq.get_rightchild(1), None);
    assert!(pq.has_parent(1));
    assert!(!pq.has_parent(0));
    assert!(pq.has_leftchild(1));
    assert!(!pq.has_rightchild(1));
    assert!(!pq.has_leftchild(2));
    pq.shift_leftchild(0);
    assert_eq!(pq.clone().into_inner(), vec![9, 5, 7, 10]);
    pq.shift_upwards(1);
    pq.shift_rightchild(0);
    assert_eq!(pq.into_inner(), vec![7, 9, 5, 10]);
}

#[test]
fn max_heap_starts_empty() {
    let h = MaxHeap::<i32>::new();
    assert_eq!(h.len(), 0);
}

#[test]
fn priority_queue_pops_in_order() {
    let mut pq = PriorityQueue::<i32>::new();
    for x in [4, 8, 1, 1, 9, -3, 0] {
        pq.push(x);
    }
    let mut out = Vec::new();
    while let Some(x) = pq.pop() {
        out.push(x);
    }
    assert_eq!(out, vec![-3, 0, 1, 1, 4, 8, 9]);
}

#[test]
fn heap_sort_strings() {
    let mut v = vec!["delta", "alpha", "charlie", "bravo"];
    heap_sort(&mut v);
    assert_eq!(v, vec!["alpha", "bravo", "charlie", "delta"]);
}
