use structures::list::List;

fn list_of(xs: &[i32]) -> List<i32> {
    let mut l = List::nil();
    for x in xs.iter().rev() {
        l = List::cons(*x, &l);
    }
    l
}

fn items(xs: &List<i32>) -> Vec<i32> {
    xs.iter().into_iter().cloned().collect()
}

#[test]
fn macro_list() {
    assert_eq!(List::<()>::nil(), List::<()>::nil());
    assert_eq!(list_of(&[1]), List::cons(1, &List::nil()));
    assert_eq!(list_of(&[1, 2]), List::cons(1, &List::cons(2, &List::nil())));
}

#[test]
fn decons() {
    assert_eq!(List::<()>::nil().decons(), None);
    assert_eq!(list_of(&[1]).decons(), Some((&1, list_of(&[]))));
    assert_eq!(list_of(&[1, 2]).decons(), Some((&1, list_of(&[2]))));
}

#[test]
fn head() {
    assert_eq!(List::<()>::nil().head(), None);
    assert_eq!(list_of(&[1]).head(), Some(&1));
    assert_eq!(list_of(&[1, 2]).head(), Some(&1));
}

#[test]
fn tail() {
    assert_eq!(List::<()>::nil().tail(), None);
    assert_eq!(list_of(&[1]).tail(), Some(list_of(&[])));
    assert_eq!(list_of(&[1, 2]).tail(), Some(list_of(&[2])));
}

#[test]
fn is_empty() {
    assert!(List::<()>::nil().is_empty());
    assert!(!list_of(&[1]).is_empty());
    assert!(!list_of(&[1, 2]).is_empty());
}

#[test]
fn list_len() {
    assert_eq!(List::<()>::nil().len(), 0);
    assert_eq!(list_of(&[1]).len(), 1);
    assert_eq!(list_of(&[1, 2]).len(), 2);
}

#[test]
fn list_iter() {
    assert_eq!(items(&list_of(&[])), Vec::<i32>::new());
    assert_eq!(items(&list_of(&[1])), [1]);
    assert_eq!(items(&list_of(&[1, 2])), [1, 2]);
}

#[test]
fn lists_share_their_tail() {
    let tail = list_of(&[2, 3]);
    let a = List::cons(1, &tail);
    let b = List::cons(9, &tail);
    assert_eq!(items(&a), [1, 2, 3]);
    assert_eq!(items(&b), [9, 2, 3]);
    assert_eq!(items(&tail), [2, 3]);
    assert_eq!(a.tail(), Some(tail));
}
