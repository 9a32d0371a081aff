use structures::heap::Heap;

#[test]
fn push_pop() {
    let mut heap = Heap::new();
    for i in 0..10 {
        heap.push(i);
    }
    for i in (0..10).rev() {
        assert_eq!(heap.pop(), Some(i));
    }
    assert_eq!(heap.pop(), None);
}

#[test]
fn from_vec() {
    let vec = vec![0, 2, 4, 6, 8, 9, 7, 5, 3, 1];
    let mut heap = Heap::from_vec(vec);
    for i in (0..10).rev() {
        assert_eq!(heap.pop(), Some(i));
    }
    assert_eq!(heap.pop(), None);
}

#[test]
fn into_sorted_vec() {
    let vec = vec![0, 2, 4, 6, 8, 9, 7, 5, 3, 1];
    let heap = Heap::from_vec(vec);
    assert_eq!(heap.into_sorted_vec(), (0..10).collect::<Vec<_>>());
}

#[test]
fn peek_sees_the_greatest() {
    let mut heap = Heap::new();
    assert_eq!(heap.peek(), None);
    assert!(heap.is_empty());
    heap.push(3);
    heap.push(7);
    heap.push(5);
    assert_eq!(heap.peek(), Some(&7));
    assert_eq!(heap.len(), 3);
    let mut items = heap.into_vec();
    items.sort();
    assert_eq!(items, vec![3, 5, 7]);
}

#[test]
fn equal_items_all_come_out() {
    let mut heap = Heap::from_vec(vec![2, 2, 1, 2]);
    assert_eq!(heap.pop(), Some(2));
    assert_eq!(heap.pop(), Some(2));
    assert_eq!(heap.pop(), Some(2));
    assert_eq!(heap.pop(), Some(1));
    assert_eq!(heap.pop(), None);
    assert_eq!(Heap::<i32>::from_vec(vec![]).into_sorted_vec(), Vec::<i32>::new());
}

#[test]
fn default_heap_is_empty() {
    let mut heap: Heap<u8> = Default::default();
    assert!(heap.is_empty());
    heap.push(4);
    assert_eq!(heap.into_sorted_vec(), vec![4]);
}
