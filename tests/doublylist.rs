use structures::doublylist::{DoublyList, IntoIter};

fn drain<T>(mut it: IntoIter<T>) -> Vec<T> {
    let mut out = Vec::new();
    while let Some(x) = it.next() {
        out.push(x);
    }
    out
}

#[test]
fn doublylist_new() {
    let list = DoublyList::<()>::new();
    assert_eq!(list.len(), 0);
    assert_eq!(list.is_empty(), true);
    assert_eq!(list.front().map(|x| *x), None);
    assert_eq!(list.back().map(|x| *x), None);
}

#[test]
fn push_front() {
    let mut list = DoublyList::new();
    list.push_front(3);
    assert_eq!(list.len(), 1);
    assert_eq!(list.is_empty(), false);
    assert_eq!(list.front().map(|x| *x), Some(3));
    assert_eq!(list.back().map(|x| *x), Some(3));
    list.push_front(2);
    assert_eq!(list.len(), 2);
    assert_eq!(list.is_empty(), false);
    assert_eq!(list.front().map(|x| *x), Some(2));
    assert_eq!(list.back().map(|x| *x), Some(3));
    list.push_front(1);
    assert_eq!(list.len(), 3);
    assert_eq!(list.is_empty(), false);
    assert_eq!(list.front().map(|x| *x), Some(1));
    assert_eq!(list.back().map(|x| *x), Some(3));
}

#[test]
fn push_back() {
    let mut list = DoublyList::new();
    list.push_back(1);
    assert_eq!(list.len(), 1);
    assert_eq!(list.is_empty(), false);
    assert_eq!(list.front().map(|x| *x), Some(1));
    assert_eq!(list.back().map(|x| *x), Some(1));
    list.push_back(2);
    assert_eq!(list.len(), 2);
    assert_eq!(list.is_empty(), false);
    assert_eq!(list.front().map(|x| *x), Some(1));
    assert_eq!(list.back().map(|x| *x), Some(2));
    list.push_back(3);
    assert_eq!(list.len(), 3);
    assert_eq!(list.is_empty(), false);
    assert_eq!(list.front().map(|x| *x), Some(1));
    assert_eq!(list.back().map(|x| *x), Some(3));
}

#[test]
fn pop_front() {
    let mut list = DoublyList::new();
    assert_eq!(list.pop_front(), None);
    list.push_front(3);
    list.push_front(2);
    list.push_front(1);
    assert_eq!(list.len(), 3);
    assert_eq!(list.pop_front(), Some(1));
    assert_eq!(list.len(), 2);
    assert_eq!(list.is_empty(), false);
    assert_eq!(list.front().map(|x| *x), Some(2));
    assert_eq!(list.back().map(|x| *x), Some(3));
    assert_eq!(list.pop_front(), Some(2));
    assert_eq!(list.len(), 1);
    assert_eq!(list.is_empty(), false);
    assert_eq!(list.front().map(|x| *x), Some(3));
    assert_eq!(list.back().map(|x| *x), Some(3));
    assert_eq!(list.pop_front(), Some(3));
    assert_eq!(list.len(), 0);
    assert_eq!(list.is_empty(), true);
    assert_eq!(list.front().map(|x| *x), None);
    assert_eq!(list.back().map(|x| *x), None);
}

#[test]
fn pop_back() {
    let mut list = DoublyList::new();
    assert_eq!(list.pop_back(), None);
    list.push_back(1);
    list.push_back(2);
    list.push_back(3);
    assert_eq!(list.len(), 3);
    assert_eq!(list.pop_back(), Some(3));
    assert_eq!(list.len(), 2);
    assert_eq!(list.is_empty(), false);
    assert_eq!(list.front().map(|x| *x), Some(1));
    assert_eq!(list.back().map(|x| *x), Some(2));
    assert_eq!(list.pop_back(), Some(2));
    assert_eq!(list.len(), 1);
    assert_eq!(list.is_empty(), false);
    assert_eq!(list.front().map(|x| *x), Some(1));
    assert_eq!(list.back().map(|x| *x), Some(1));
    assert_eq!(list.pop_back(), Some(1));
    assert_eq!(list.len(), 0);
    assert_eq!(list.is_empty(), true);
    assert_eq!(list.front().map(|x| *x), None);
    assert_eq!(list.back().map(|x| *x), None);
}

#[test]
fn into_iter() {
    let list = DoublyList::<()>::new();
    assert_eq!(drain(list.into_iter()), vec![]);
    let mut list = DoublyList::new();
    list.push_back(1);
    assert_eq!(drain(list.into_iter()), vec![1]);
    let mut list = DoublyList::new();
    list.push_back(1);
    list.push_back(2);
    assert_eq!(drain(list.into_iter()), vec![1, 2]);
    let mut list = DoublyList::new();
    list.push_back(1);
    list.push_back(2);
    list.push_back(3);
    assert_eq!(drain(list.into_iter()), vec![1, 2, 3]);
}

#[test]
fn from_iter() {
    let list = DoublyList::<()>::from_vec(vec![]);
    assert_eq!(list.len(), 0);
    assert_eq!(drain(list.into_iter()), vec![]);
    let list = DoublyList::from_vec(vec![1]);
    assert_eq!(list.len(), 1);
    assert_eq!(drain(list.into_iter()), vec![1]);
    let list = DoublyList::from_vec(vec![1, 2]);
    assert_eq!(list.len(), 2);
    assert_eq!(drain(list.into_iter()), vec![1, 2]);
    let list = DoublyList::from_vec(vec![1, 2, 3]);
    assert_eq!(list.len(), 3);
    assert_eq!(drain(list.into_iter()), vec![1, 2, 3]);
}

#[test]
fn next_back_takes_from_the_back() {
    let mut it = DoublyList::from_vec(vec![1, 2, 3]).into_iter();
    assert_eq!(it.next_back(), Some(3));
    assert_eq!(it.next(), Some(1));
    assert_eq!(it.next_back(), Some(2));
    assert_eq!(it.next(), None);
    assert_eq!(it.next_back(), None);
}

#[test]
fn extend_appends_in_order() {
    let mut list = DoublyList::from_vec(vec![1, 2]);
    list.extend(vec![3, 4]);
    assert_eq!(list.len(), 4);
    assert_eq!(drain(list.into_iter()), vec![1, 2, 3, 4]);
    let mut list: DoublyList<i32> = Default::default();
    list.extend(vec![]);
    assert!(list.is_empty());
}

#[test]
fn cells_are_reused_after_pops() {
    let mut list = DoublyList::new();
    for i in 0..100 {
        list.push_back(i);
        list.push_front(i + 1000);
        assert_eq!(list.pop_back(), Some(i));
    }
    assert_eq!(list.len(), 100);
    assert_eq!(list.front().map(|x| *x), Some(1099));
    assert_eq!(list.back().map(|x| *x), Some(1000));
}
