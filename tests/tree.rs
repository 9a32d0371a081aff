use structures::tree::TraverseOrder::{InOrder, PostOrder, PreOrder};
use structures::tree::{TraverseOrder, Tree};

fn new_tree() -> Tree<i32> {
    Tree::branch(
        1,
        Tree::branch(2, Tree::leaf(4), Tree::leaf(5)),
        Tree::branch(3, Tree::leaf(6), Tree::leaf(7)),
    )
}

fn collect(t: &Tree<i32>, o: TraverseOrder) -> Vec<i32> {
    let mut it = t.iter(o);
    let mut out = Vec::new();
    while let Some(x) = it.next() {
        out.push(*x);
    }
    out
}

#[test]
fn left() {
    assert_eq!(Tree::<()>::empty().left(), None);
    assert_eq!(Tree::branch(1, new_tree(), Tree::empty()).left(), Some(&new_tree()));
}

#[test]
fn right() {
    assert_eq!(Tree::<()>::empty().right(), None);
    assert_eq!(Tree::branch(1, Tree::empty(), new_tree()).right(), Some(&new_tree()));
}

#[test]
fn value() {
    assert_eq!(Tree::<()>::empty().value(), None);
    assert_eq!(Tree::leaf(1).value(), Some(&1));
}

#[test]
fn tree_iter() {
    let h = |o| collect(&new_tree(), o);
    assert_eq!(h(InOrder), [4, 2, 5, 1, 6, 3, 7]);
    assert_eq!(h(PreOrder), [1, 2, 4, 5, 3, 6, 7]);
    assert_eq!(h(PostOrder), [4, 5, 2, 6, 7, 3, 1]);
}

#[test]
fn traverse() {
    let h = |o| {
        let mut rs = vec![];
        let t = new_tree();
        let mut seen = Vec::new();
        t.traverse(o, &mut seen);
        for &x in seen {
            rs.push(x);
        }
        rs
    };
    assert_eq!(h(InOrder), [4, 2, 5, 1, 6, 3, 7]);
    assert_eq!(h(PreOrder), [1, 2, 4, 5, 3, 6, 7]);
    assert_eq!(h(PostOrder), [4, 5, 2, 6, 7, 3, 1]);
}

#[test]
fn empty_tree_yields_nothing() {
    let t = Tree::<i32>::empty();
    assert_eq!(collect(&t, TraverseOrder::InOrder), Vec::<i32>::new());
    let mut seen = Vec::new();
    t.traverse(TraverseOrder::PreOrder, &mut seen);
    assert!(seen.is_empty());
}

#[test]
fn lopsided_tree_orders() {
    let t = Tree::branch(1, Tree::branch(2, Tree::leaf(3), Tree::empty()), Tree::empty());
    assert_eq!(collect(&t, TraverseOrder::InOrder), [3, 2, 1]);
    assert_eq!(collect(&t, TraverseOrder::PreOrder), [1, 2, 3]);
    assert_eq!(collect(&t, TraverseOrder::PostOrder), [3, 2, 1]);
}
