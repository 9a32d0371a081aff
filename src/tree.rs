use vstd::prelude::*;

verus! {

/// Binary tree: empty, or a value with a left and a right subtree.
#[derive(Debug, PartialEq)]
pub enum Tree<T> {
    Empty,
    Branch(T, Box<Tree<T>>, Box<Tree<T>>),
}

/// Where a node's own value comes relative to its subtrees.
#[derive(Clone, Copy, Debug, PartialEq, Eq)]
pub enum TraverseOrder {
    /// Left subtree, value, right subtree.
    InOrder,
    /// Value, left subtree, right subtree.
    PreOrder,
    /// Left subtree, right subtree, value.
    PostOrder,
}

impl<T> Tree<T> {
    /// The values of the tree in the given order.
    pub open spec fn walk(self, order: TraverseOrder) -> Seq<T>
        decreases self,
    {
        match self {
            Tree::Empty => Seq::empty(),
            Tree::Branch(v, l, r) => match order {
                TraverseOrder::InOrder => l.walk(order) + seq![v] + r.walk(order),
                TraverseOrder::PreOrder => seq![v] + l.walk(order) + r.walk(order),
                TraverseOrder::PostOrder => l.walk(order) + r.walk(order) + seq![v],
            },
        }
    }

    pub fn empty() -> (t: Self)
        ensures
            t == Tree::<T>::Empty,
    {
        Tree::Empty
    }

    pub fn leaf(v: T) -> (t: Self)
        ensures
            t == Tree::Branch(v, Box::new(Tree::<T>::Empty), Box::new(Tree::<T>::Empty)),
    {
        Tree::branch(v, Tree::Empty, Tree::Empty)
    }

    pub fn branch(v: T, l: Self, r: Self) -> (t: Self)
        ensures
            t == Tree::Branch(v, Box::new(l), Box::new(r)),
    {
        Tree::Branch(v, Box::new(l), Box::new(r))
    }

    pub fn left(&self) -> (r: Option<&Self>)
        ensures
            match *self {
                Tree::Empty => r is None,
                Tree::Branch(_, l, _) => r matches Some(x) && *x == *l,
            },
    {
        match self {
            Tree::Empty => None,
            Tree::Branch(_, l, _) => Some(&**l),
        }
    }

    pub fn right(&self) -> (r: Option<&Self>)
        ensures
            match *self {
                Tree::Empty => r is None,
                Tree::Branch(_, _, rt) => r matches Some(x) && *x == *rt,
            },
    {
        match self {
            Tree::Empty => None,
            Tree::Branch(_, _, r) => Some(&**r),
        }
    }

    pub fn value(&self) -> (r: Option<&T>)
        ensures
            match *self {
                Tree::Empty => r is None,
                Tree::Branch(v, _, _) => r matches Some(x) && *x == v,
            },
    {
        match self {
            Tree::Empty => None,
            Tree::Branch(v, _, _) => Some(v),
        }
    }

    /// Appends the values of the tree, in the given order, to `out`.
    pub fn traverse<'a>(&'a self, order: TraverseOrder, out: &mut Vec<&'a T>)
        ensures
            final(out)@ == old(out)@ + self.walk(order).map_values(|v: T| &v),
        decreases self,
    {
        match self {
            Tree::Empty => {
                assert(final(out)@ =~= old(out)@ + self.walk(order).map_values(|v: T| &v));
            },
            Tree::Branch(v, l, r) => {
                if let TraverseOrder::PreOrder = order {
                    out.push(v);
                }
                l.traverse(order, out);
                if let TraverseOrder::InOrder = order {
                    out.push(v);
                }
                r.traverse(order, out);
                if let TraverseOrder::PostOrder = order {
                    out.push(v);
                }
            },
        }
    }
}

impl<T> Tree<T> {
    pub open spec fn nodes(self) -> nat
        decreases self,
    {
        match self {
            Tree::Empty => 0,
            Tree::Branch(_, l, r) => 1 + l.nodes() + r.nodes(),
        }
    }

    /// Hands out the values of the tree one by one, in the given order.
    pub fn iter(&self, order: TraverseOrder) -> (it: Iter<'_, T>)
        ensures
            it@ == self.walk(order),
    {
        let it = Iter { stack: vec![IterState::Tree(self)], order };
        assert(it.stack@.drop_last() =~= Seq::<IterState<T>>::empty());
        reveal_with_fuel(pending, 2);
        assert(it@ =~= self.walk(order));
        it
    }
}

/// What is left to do: a whole subtree, or a single value.
enum IterState<'a, T> {
    Tree(&'a Tree<T>),
    Value(&'a T),
}

/// Iterator over the values of a tree, driven by a stack of pending work.
pub struct Iter<'a, T> {
    stack: Vec<IterState<'a, T>>,
    order: TraverseOrder,
}

spec fn state_walk<T>(s: IterState<T>, order: TraverseOrder) -> Seq<T> {
    match s {
        IterState::Tree(t) => t.walk(order),
        IterState::Value(v) => seq![*v],
    }
}

/// The values still to come from a stack whose top is its last element.
spec fn pending<T>(stack: Seq<IterState<T>>, order: TraverseOrder) -> Seq<T>
    decreases stack.len(),
{
    if stack.len() == 0 {
        Seq::empty()
    } else {
        state_walk(stack.last(), order) + pending(stack.drop_last(), order)
    }
}

spec fn weight<T>(stack: Seq<IterState<T>>) -> nat
    decreases stack.len(),
{
    if stack.len() == 0 {
        0
    } else {
        (match stack.last() {
            IterState::Tree(t) => 3 * t.nodes() + 1,
            IterState::Value(_) => 1,
        }) + weight(stack.drop_last())
    }
}

impl<'a, T> View for Iter<'a, T> {
    type V = Seq<T>;

    /// The values not handed out yet, in order.
    closed spec fn view(&self) -> Seq<T> {
        pending(self.stack@, self.order)
    }
}

impl<'a, T> Iter<'a, T> {
    pub fn next(&mut self) -> (r: Option<&'a T>)
        ensures
            match r {
                Some(x) => old(self)@.len() > 0 && *x == old(self)@[0] && final(self)@
                    == old(self)@.drop_first(),
                None => old(self)@.len() == 0 && final(self)@ == old(self)@,
            },
    {
        let order = self.order;
        while self.stack.len() > 0
            invariant
                self.order == order,
                pending(self.stack@, order) == old(self)@,
            decreases weight(self.stack@),
        {
            let ghost before = self.stack@;
            let state = self.stack.pop().unwrap();
            proof {
                assert(before.drop_last() =~= self.stack@);
            }
            match state {
                IterState::Value(v) => {
                    assert(pending(before, order) =~= seq![*v] + self@);
                    assert(self@ =~= old(self)@.drop_first());
                    return Some(v);
                },
                IterState::Tree(Tree::Empty) => {
                    assert(pending(before, order) =~= pending(self.stack@, order));
                },
                IterState::Tree(Tree::Branch(v, l, r)) => {
                    let ghost base = self.stack@;
                    if let TraverseOrder::PostOrder = order {
                        self.stack.push(IterState::Value(v));
                    }
                    self.stack.push(IterState::Tree(&**r));
                    if let TraverseOrder::InOrder = order {
                        self.stack.push(IterState::Value(v));
                    }
                    self.stack.push(IterState::Tree(&**l));
                    if let TraverseOrder::PreOrder = order {
                        self.stack.push(IterState::Value(v));
                    }
                    proof {
                        let s = self.stack@;
                        match order {
                            TraverseOrder::PreOrder => {
                                assert(s.drop_last().drop_last().drop_last() =~= base);
                                assert(s.drop_last().drop_last() =~= base.push(IterState::Tree(&**r)));
                                assert(s.drop_last() =~= base.push(IterState::Tree(&**r)).push(IterState::Tree(&**l)));
                            },
                            TraverseOrder::InOrder => {
                                assert(s.drop_last().drop_last().drop_last() =~= base);
                                assert(s.drop_last().drop_last() =~= base.push(IterState::Tree(&**r)));
                                assert(s.drop_last() =~= base.push(IterState::Tree(&**r)).push(IterState::Value(v)));
                            },
                            TraverseOrder::PostOrder => {
                                assert(s.drop_last().drop_last().drop_last() =~= base);
                                assert(s.drop_last().drop_last() =~= base.push(IterState::Value(v)));
                                assert(s.drop_last() =~= base.push(IterState::Value(v)).push(IterState::Tree(&**r)));
                            },
                        }
                        reveal_with_fuel(pending, 4);
                        reveal_with_fuel(weight, 4);
                        assert(pending(s, order) =~= pending(before, order));
                    }
                },
            }
        }
        None
    }
}

} // verus!
