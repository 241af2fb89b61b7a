use search_space::priority_queue::MinPrioriyQueue;

#[test]
fn dequeues_in_nondecreasing_key_order() {
    let mut q = MinPrioriyQueue::new();
    q.enqueue(5, 10);
    q.enqueue(1, 20);
    q.enqueue(3, 30);
    q.enqueue(2, 40);
    assert_eq!(q.dequeue(), Some(20));
    assert_eq!(q.dequeue(), Some(40));
    assert_eq!(q.dequeue(), Some(30));
    assert_eq!(q.dequeue(), Some(10));
    assert_eq!(q.dequeue(), None);
}

#[test]
fn contains_and_is_empty() {
    let mut q = MinPrioriyQueue::new();
    assert!(q.is_empty());
    assert!(!q.contains(9));
    q.enqueue(4, 9);
    assert!(!q.is_empty());
    assert!(q.contains(9));
    assert!(!q.contains(8));
    q.dequeue();
    assert!(q.is_empty());
}

#[test]
fn to_elements_lists_all_entries() {
    let mut q = MinPrioriyQueue::new();
    q.enqueue(2, 100);
    q.enqueue(7, 200);
    q.enqueue(7, 200);
    let mut elems = q.to_elements();
    elems.sort();
    assert_eq!(elems, vec![100, 200, 200]);
}

#[test]
fn default_is_empty() {
    let q: MinPrioriyQueue = Default::default();
    assert!(q.is_empty());
}

#[test]
fn equal_keys_all_come_out() {
    let mut q = MinPrioriyQueue::new();
    q.enqueue(1, 11);
    q.enqueue(1, 22);
    let first = q.dequeue().unwrap();
    let second = q.dequeue().unwrap();
    assert!(first == 11 && second == 22 || first == 22 && second == 11);
    assert_eq!(q.dequeue(), None);
}
