use std::rc::Rc;
use vstd::prelude::*;

verus! {

/// Persistent singly linked list: lists built on a common tail share its nodes.
#[derive(Debug, PartialEq)]
pub struct List<T> {
    head: Option<Rc<Node<T>>>,
}

#[derive(Debug, PartialEq)]
struct Node<T> {
    next: Option<Rc<Node<T>>>,
    data: T,
}

/// Relies on `Rc::clone`: the result points to the same allocation, so it holds the same
/// value.
#[verifier::external_body]
fn share<T>(link: &Rc<Node<T>>) -> (r: Rc<Node<T>>)
    ensures
        r == *link,
{
    Rc::clone(link)
}

spec fn items<T>(link: Option<Rc<Node<T>>>) -> Seq<T>
    decreases link,
{
    match link {
        None => Seq::empty(),
        Some(node) => seq![node.data] + items(node.next),
    }
}

impl<T> View for List<T> {
    type V = Seq<T>;

    closed spec fn view(&self) -> Seq<T> {
        items(self.head)
    }
}

impl<T> List<T> {
    pub fn nil() -> (l: Self)
        ensures
            l@ == Seq::<T>::empty(),
    {
        List { head: None }
    }

    /// `data` in front of the items of `next`, whose nodes are shared, not copied.
    pub fn cons(data: T, next: &Self) -> (l: Self)
        ensures
            l@ == seq![data] + next@,
    {
        let next_link = match &next.head {
            Some(node) => Some(share(node)),
            None => None,
        };
        let node = Node { data, next: next_link };
        List { head: Some(Rc::new(node)) }
    }

    /// The first item and the list of the others, if there is a first item.
    pub fn decons(&self) -> (r: Option<(&T, Self)>)
        ensures
            match r {
                Some((x, rest)) => self@.len() > 0 && *x == self@[0] && rest@ == self@.drop_first(),
                None => self@.len() == 0,
            },
    {
        match &self.head {
            Some(node) => {
                let rest = match &node.next {
                    Some(next) => Some(share(next)),
                    None => None,
                };
                assert(items(self.head).drop_first() =~= items(node.next));
                Some((&node.data, List { head: rest }))
            },
            None => None,
        }
    }

    pub fn head(&self) -> (r: Option<&T>)
        ensures
            match r {
                Some(x) => self@.len() > 0 && *x == self@[0],
                None => self@.len() == 0,
            },
    {
        match &self.head {
            Some(node) => Some(&node.data),
            None => None,
        }
    }

    /// The list of all items but the first, if there is a first item.
    pub fn tail(&self) -> (r: Option<Self>)
        ensures
            match r {
                Some(rest) => self@.len() > 0 && rest@ == self@.drop_first(),
                None => self@.len() == 0,
            },
    {
        match &self.head {
            Some(node) => {
                let rest = match &node.next {
                    Some(next) => Some(share(next)),
                    None => None,
                };
                assert(items(self.head).drop_first() =~= items(node.next));
                Some(List { head: rest })
            },
            None => None,
        }
    }

    pub fn is_empty(&self) -> (r: bool)
        ensures
            r == (self@.len() == 0),
    {
        self.head.is_none()
    }

    /// The number of items, counted by walking the list.
    pub fn len(&self) -> (r: usize)
        requires
            self@.len() <= usize::MAX,
        ensures
            r == self@.len(),
    {
        let mut n: usize = 0;
        let mut cur = &self.head;
        while cur.is_some()
            invariant
                self@.len() <= usize::MAX,
                n + items(*cur).len() == self@.len(),
            decreases items(*cur).len(),
        {
            let node = cur.as_ref().unwrap();
            cur = &node.next;
            n = n + 1;
        }
        n
    }

    /// References to the items, front to back.
    pub fn iter(&self) -> (r: Vec<&T>)
        ensures
            r@ == self@.map_values(|x: T| &x),
    {
        let mut out: Vec<&T> = Vec::new();
        let mut cur = &self.head;
        while cur.is_some()
            invariant
                out@ + items(*cur).map_values(|x: T| &x) == self@.map_values(|x: T| &x),
            decreases items(*cur).len(),
        {
            let node = cur.as_ref().unwrap();
            let ghost rest = items(*cur);
            out.push(&node.data);
            cur = &node.next;
            proof {
                assert(rest == seq![node.data] + items(*cur));
                assert(rest.map_values(|x: T| &x) =~= seq![&node.data] + items(*cur).map_values(
                    |x: T| &x,
                ));
            }
        }
        assert(items(*cur).map_values(|x: T| &x) =~= Seq::<&T>::empty());
        assert(out@ =~= self@.map_values(|x: T| &x));
        out
    }
}

} // verus!
