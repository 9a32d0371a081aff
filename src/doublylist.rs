use vstd::prelude::*;
use vstd::set_lib::{lemma_int_range, lemma_len_subset, set_int_range};

verus! {

/// One cell of the arena: the indices of its neighbours in the chain and its payload.
pub struct Node<T> {
    prev: Option<usize>,
    next: Option<usize>,
    data: T,
}

/// Doubly linked list whose cells live in an arena and are addressed by stable indices,
/// so that any cell can be unlinked, or linked again, in constant time.
pub struct DoublyList<T> {
    slots: Vec<Option<Node<T>>>,
    free: Vec<usize>,
    head: Option<usize>,
    tail: Option<usize>,
    len: usize,
    chain: Ghost<Seq<usize>>,
}

impl<T> DoublyList<T> {
    /// The cells of the list, front to back.
    pub closed spec fn cells(&self) -> Seq<usize> {
        self.chain@
    }

    /// Whether cell `c` exists, linked into the chain or not.
    pub closed spec fn allocated(&self, c: usize) -> bool {
        c < self.slots@.len() && self.slots@[c as int] is Some
    }

    /// The payload of cell `c`.
    pub closed spec fn payload(&self, c: usize) -> T {
        self.slots@[c as int]->Some_0.data
    }

    spec fn prev_of(&self, c: usize) -> Option<usize> {
        self.slots@[c as int]->Some_0.prev
    }

    spec fn next_of(&self, c: usize) -> Option<usize> {
        self.slots@[c as int]->Some_0.next
    }

    /// A cell that exists but is not linked into the chain.
    pub open spec fn detached(&self, c: usize) -> bool {
        self.allocated(c) && !self.cells().contains(c)
    }

    pub closed spec fn wf(&self) -> bool {
        let chain = self.chain@;
        &&& self.len == chain.len()
        &&& chain.no_duplicates()
        &&& forall|i: int| 0 <= i < chain.len() ==> self.allocated(#[trigger] chain[i])
        &&& forall|i: int|
            0 <= i < chain.len() ==> #[trigger] self.prev_of(chain[i]) == if i == 0 {
                None
            } else {
                Some(chain[i - 1])
            }
        &&& forall|i: int|
            0 <= i < chain.len() ==> #[trigger] self.next_of(chain[i]) == if i + 1 == chain.len() {
                None
            } else {
                Some(chain[i + 1])
            }
        &&& self.head == if chain.len() == 0 { None } else { Some(chain[0]) }
        &&& self.tail == if chain.len() == 0 { None } else { Some(chain.last()) }
        &&& self.free@.no_duplicates()
        &&& forall|k: int|
            0 <= k < self.free@.len() ==> #[trigger] self.free@[k] < self.slots@.len()
                && self.slots@[self.free@[k] as int] is None
    }

    /// The cells of a well-formed list are distinct and exist.
    pub proof fn lemma_cells(&self)
        requires
            self.wf(),
        ensures
            self.cells().no_duplicates(),
            self@.len() == self.cells().len(),
            forall|i: int| 0 <= i < self.cells().len() ==> #[trigger] self.allocated(self.cells()[i]),
    {
    }

    /// The cells of `self` and of `other` other than `c` exist alike and hold the same payloads.
    pub open spec fn same_payloads_except(&self, other: &Self, c: usize) -> bool {
        forall|d: usize|
            #![trigger self.allocated(d)]
            #![trigger other.allocated(d)]
            #![trigger self.payload(d)]
            #![trigger other.payload(d)]
            d != c ==> self.allocated(d) == other.allocated(d) && (self.allocated(d)
                ==> self.payload(d) == other.payload(d))
    }

    /// The cells of `self` and of `other` exist alike and hold the same payloads.
    pub open spec fn same_payloads(&self, other: &Self) -> bool {
        forall|d: usize|
            #![trigger self.allocated(d)]
            #![trigger other.allocated(d)]
            #![trigger self.payload(d)]
            #![trigger other.payload(d)]
            self.allocated(d) == other.allocated(d) && (self.allocated(d) ==> self.payload(d)
                == other.payload(d))
    }

    pub fn new() -> (l: Self)
        ensures
            l.wf(),
            l@ == Seq::<T>::empty(),
            l.cells() == Seq::<usize>::empty(),
    {
        let l = DoublyList {
            slots: Vec::new(),
            free: Vec::new(),
            head: None,
            tail: None,
            len: 0,
            chain: Ghost(Seq::empty()),
        };
        assert(l@ =~= Seq::<T>::empty());
        l
    }

    pub fn is_empty(&self) -> (r: bool)
        requires
            self.wf(),
        ensures
            r == (self@.len() == 0),
    {
        self.head.is_none()
    }

    pub fn len(&self) -> (r: usize)
        requires
            self.wf(),
        ensures
            r == self@.len(),
    {
        self.len
    }

    pub fn front(&self) -> (r: Option<&T>)
        requires
            self.wf(),
        ensures
            match r {
                Some(x) => self@.len() > 0 && *x == self@[0],
                None => self@.len() == 0,
            },
    {
        match self.head {
            Some(h) => Some(self.borrow_node_data(h)),
            None => None,
        }
    }

    pub fn back(&self) -> (r: Option<&T>)
        requires
            self.wf(),
        ensures
            match r {
                Some(x) => self@.len() > 0 && *x == self@.last(),
                None => self@.len() == 0,
            },
    {
        match self.tail {
            Some(t) => Some(self.borrow_node_data(t)),
            None => None,
        }
    }

    pub fn push_front(&mut self, data: T)
        requires
            old(self).wf(),
        ensures
            final(self).wf(),
            final(self)@ == seq![data] + old(self)@,
    {
        let c = self.new_node(data);
        self.push_front_node(c);
        proof {
            assert(self@ =~= seq![data] + old(self)@);
        }
    }

    pub fn push_back(&mut self, data: T)
        requires
            old(self).wf(),
        ensures
            final(self).wf(),
            final(self)@ == old(self)@.push(data),
    {
        let c = self.new_node(data);
        self.push_back_node(c);
        proof {
            assert(self@ =~= old(self)@.push(data));
        }
    }

    pub fn pop_front(&mut self) -> (r: Option<T>)
        requires
            old(self).wf(),
        ensures
            final(self).wf(),
            match r {
                Some(x) => old(self)@.len() > 0 && x == old(self)@[0] && final(self)@
                    == old(self)@.drop_first(),
                None => old(self)@.len() == 0 && final(self)@ == old(self)@,
            },
    {
        match self.pop_front_node() {
            Some(c) => {
                let x = self.unwrap_node_data(c);
                proof {
                    assert(self@ =~= old(self)@.drop_first());
                }
                Some(x)
            },
            None => {
                proof {
                    assert(self@ =~= old(self)@);
                }
                None
            },
        }
    }

    pub fn pop_back(&mut self) -> (r: Option<T>)
        requires
            old(self).wf(),
        ensures
            final(self).wf(),
            match r {
                Some(x) => old(self)@.len() > 0 && x == old(self)@.last() && final(self)@
                    == old(self)@.drop_last(),
                None => old(self)@.len() == 0 && final(self)@ == old(self)@,
            },
    {
        match self.pop_back_node() {
            Some(c) => {
                let x = self.unwrap_node_data(c);
                proof {
                    assert(self@ =~= old(self)@.drop_last());
                }
                Some(x)
            },
            None => {
                proof {
                    assert(self@ =~= old(self)@);
                }
                None
            },
        }
    }

    /// Appends every item of `items`, in order, at the back.
    pub fn extend(&mut self, items: Vec<T>)
        requires
            old(self).wf(),
        ensures
            final(self).wf(),
            final(self)@ == old(self)@ + items@,
    {
        let ghost all = items@;
        let mut items = items;
        let mut rest = DoublyList::new();
        while items.len() > 0
            invariant
                rest.wf(),
                items@ + rest@ == all,
            decreases items.len(),
        {
            let x = items.pop().unwrap();
            rest.push_front(x);
            proof {
                assert(items@ + rest@ =~= all);
            }
        }
        assert(rest@ =~= all);
        while !rest.is_empty()
            invariant
                rest.wf(),
                self.wf(),
                self@ + rest@ == old(self)@ + all,
            decreases rest@.len(),
        {
            let x = rest.pop_front().unwrap();
            self.push_back(x);
            proof {
                assert(self@ + rest@ =~= old(self)@ + all);
            }
        }
        assert(self@ =~= old(self)@ + all);
    }

    /// A list holding the items of `items`, in order.
    pub fn from_vec(items: Vec<T>) -> (l: Self)
        ensures
            l.wf(),
            l@ == items@,
    {
        let mut l = DoublyList::new();
        l.extend(items);
        assert(l@ =~= items@);
        l
    }

    /// Hands the items out front to back, or back to front.
    pub fn into_iter(self) -> (it: IntoIter<T>)
        requires
            self.wf(),
        ensures
            it.wf(),
            it@ == self@,
    {
        IntoIter(self)
    }

    /// Allocates a detached cell holding `data`.
    pub(crate) fn new_node(&mut self, data: T) -> (c: usize)
        requires
            old(self).wf(),
        ensures
            final(self).wf(),
            final(self).cells() == old(self).cells(),
            !old(self).allocated(c),
            final(self).detached(c),
            final(self).payload(c) == data,
            final(self).same_payloads_except(old(self), c),
    {
        let ghost l0 = *self;
        let node = Node { prev: None, next: None, data };
        let c = match self.free.pop() {
            Some(c) => {
                proof {
                    assert(l0.free@[l0.free@.len() - 1] == c);
                    assert forall|k: int| 0 <= k < self.free@.len() implies self.free@[k] != c by {
                        assert(l0.free@[k] == self.free@[k]);
                    }
                }
                self.slots.set(c, Some(node));
                proof {
                    assert forall|k: int| 0 <= k < self.free@.len() implies #[trigger] self.free@[k]
                        < self.slots@.len() && self.slots@[self.free@[k] as int] is None by {
                        assert(l0.free@[k] == self.free@[k]);
                    }
                }
                c
            },
            None => {
                let c = self.slots.len();
                self.slots.push(Some(node));
                proof {
                    assert forall|k: int| 0 <= k < self.free@.len() implies #[trigger] self.free@[k]
                        < self.slots@.len() && self.slots@[self.free@[k] as int] is None by {
                        assert(l0.free@[k] == self.free@[k]);
                    }
                }
                c
            },
        };
        proof {
            assert forall|i: int| 0 <= i < l0.chain@.len() implies self.allocated(
                #[trigger] l0.chain@[i],
            ) && self.prev_of(l0.chain@[i]) == l0.prev_of(l0.chain@[i]) && self.next_of(
                l0.chain@[i],
            ) == l0.next_of(l0.chain@[i]) by {
                assert(l0.allocated(l0.chain@[i]));
            }
            Self::lemma_links_kept(l0, *self);
            assert(!self.cells().contains(c)) by {
                if self.cells().contains(c) {
                    let i = choose|i: int| 0 <= i < l0.chain@.len() && l0.chain@[i] == c;
                    assert(l0.allocated(l0.chain@[i]));
                }
            }
        }
        c
    }

    /// Frees the detached cell `c` and hands back its payload.
    pub(crate) fn unwrap_node_data(&mut self, c: usize) -> (data: T)
        requires
            old(self).wf(),
            old(self).detached(c),
        ensures
            final(self).wf(),
            final(self).cells() == old(self).cells(),
            !final(self).allocated(c),
            data == old(self).payload(c),
            final(self).same_payloads_except(old(self), c),
    {
        let ghost l0 = *self;
        let mut slot: Option<Node<T>> = None;
        self.slots.set_and_swap(c, &mut slot);
        proof {
            assert forall|k: int| 0 <= k < self.free@.len() implies self.free@[k] != c by {
                assert(self.free@[k] < l0.slots@.len());
            }
        }
        self.free.push(c);
        proof {
            assert forall|k: int| 0 <= k < self.free@.len() implies #[trigger] self.free@[k]
                < self.slots@.len() && self.slots@[self.free@[k] as int] is None by {
                if k < self.free@.len() - 1 {
                    assert(l0.free@[k] == self.free@[k]);
                }
            }
            assert forall|i: int| 0 <= i < l0.chain@.len() implies self.allocated(
                #[trigger] l0.chain@[i],
            ) && self.prev_of(l0.chain@[i]) == l0.prev_of(l0.chain@[i]) && self.next_of(
                l0.chain@[i],
            ) == l0.next_of(l0.chain@[i]) by {
                assert(l0.allocated(l0.chain@[i]));
                assert(l0.chain@.contains(l0.chain@[i]));
            }
            Self::lemma_links_kept(l0, *self);
        }
        slot.unwrap().data
    }

    /// The payload of the existing cell `c`.
    pub(crate) fn borrow_node_data(&self, c: usize) -> (r: &T)
        requires
            self.allocated(c),
        ensures
            *r == self.payload(c),
    {
        &self.slots[c].as_ref().unwrap().data
    }

    /// The payload of the existing cell `c`, to be changed in place.
    pub(crate) fn borrow_node_data_mut(&mut self, c: usize) -> (r: &mut T)
        requires
            old(self).wf(),
            old(self).allocated(c),
        ensures
            *r == old(self).payload(c),
            final(self).wf(),
            final(self).cells() == old(self).cells(),
            final(self).allocated(c),
            final(self).payload(c) == *final(r),
            final(self).same_payloads_except(old(self), c),
    {
        let ghost chain = self.chain@;
        proof {
            assert forall|i: int| 0 <= i < chain.len() implies {
                let slot = #[trigger] self.slots@[chain[i] as int];
                &&& slot is Some
                &&& slot->Some_0.prev == if i == 0 {
                    None
                } else {
                    Some(chain[i - 1])
                }
                &&& slot->Some_0.next == if i + 1 == chain.len() {
                    None
                } else {
                    Some(chain[i + 1])
                }
            } by {
                assert(self.allocated(chain[i]));
                assert(self.prev_of(chain[i]) == if i == 0 {
                    None
                } else {
                    Some(chain[i - 1])
                });
                assert(self.next_of(chain[i]) == if i + 1 == chain.len() {
                    None
                } else {
                    Some(chain[i + 1])
                });
            }
        }
        let node = self.slots[c].as_mut().unwrap();
        &mut node.data
    }

    fn prev_link(&self, c: usize) -> (r: Option<usize>)
        requires
            self.allocated(c),
        ensures
            r == self.prev_of(c),
    {
        self.slots[c].as_ref().unwrap().prev
    }

    fn next_link(&self, c: usize) -> (r: Option<usize>)
        requires
            self.allocated(c),
        ensures
            r == self.next_of(c),
    {
        self.slots[c].as_ref().unwrap().next
    }

    fn set_prev(&mut self, c: usize, p: Option<usize>)
        requires
            old(self).allocated(c),
        ensures
            final(self).slots@ == old(self).slots@.update(
                c as int,
                Some(Node { prev: p, ..old(self).slots@[c as int]->Some_0 }),
            ),
            final(self).free == old(self).free,
            final(self).head == old(self).head,
            final(self).tail == old(self).tail,
            final(self).len == old(self).len,
            final(self).chain == old(self).chain,
    {
        match &mut self.slots[c] {
            Some(node) => {
                node.prev = p;
            },
            None => {},
        }
    }

    fn set_next(&mut self, c: usize, n: Option<usize>)
        requires
            old(self).allocated(c),
        ensures
            final(self).slots@ == old(self).slots@.update(
                c as int,
                Some(Node { next: n, ..old(self).slots@[c as int]->Some_0 }),
            ),
            final(self).free == old(self).free,
            final(self).head == old(self).head,
            final(self).tail == old(self).tail,
            final(self).len == old(self).len,
            final(self).chain == old(self).chain,
    {
        match &mut self.slots[c] {
            Some(node) => {
                node.next = n;
            },
            None => {},
        }
    }

    proof fn lemma_room(&self, c: usize)
        requires
            self.wf(),
            self.detached(c),
        ensures
            self.len < self.slots.len(),
    {
        let s = self.chain@.push(c);
        let si = s.map_values(|x: usize| x as int);
        assert forall|i: int, j: int| 0 <= i < si.len() && 0 <= j < si.len() && i != j implies si[i]
            != si[j] by {
            if i < self.chain@.len() && j < self.chain@.len() {
            } else if i < self.chain@.len() {
                assert(self.chain@.contains(self.chain@[i]));
            } else {
                assert(self.chain@.contains(self.chain@[j]));
            }
        }
        si.unique_seq_to_set();
        assert forall|x: int| si.to_set().contains(x) implies set_int_range(
            0,
            self.slots@.len() as int,
        ).contains(x) by {
            let i = choose|i: int| 0 <= i < si.len() && si[i] == x;
            if i < self.chain@.len() {
                assert(self.allocated(self.chain@[i]));
            }
        }
        lemma_int_range(0, self.slots@.len() as int);
        lemma_len_subset(si.to_set(), set_int_range(0, self.slots@.len() as int));
    }

    proof fn lemma_linked_front(l0: Self, l: Self, c: usize)
        requires
            l0.wf(),
            l0.detached(c),
            l.free == l0.free,
            l.len == l0.len + 1,
            l.chain@ == seq![c] + l0.chain@,
            l.head == Some(c),
            l.tail == (if l0.chain@.len() == 0 {
                Some(c)
            } else {
                l0.tail
            }),
            l.slots@.len() == l0.slots@.len(),
            l.slots@[c as int] == Some(Node { prev: None, next: l0.head, data: l0.payload(c) }),
            match l0.head {
                Some(h) => l.slots@[h as int] == Some(
                    Node { prev: Some(c), ..l0.slots@[h as int]->Some_0 },
                ),
                None => true,
            },
            forall|d: int|
                0 <= d < l.slots@.len() && d != c && Some(d as usize) != l0.head ==> l.slots@[d]
                    == l0.slots@[d],
        ensures
            l.wf(),
            l.same_payloads(&l0),
    {
        let chain = l0.chain@;
        let new_chain = l.chain@;
        assert forall|i: int| 0 <= i < new_chain.len() implies l.allocated(#[trigger] new_chain[i]) by {
            if i > 0 {
                assert(new_chain[i] == chain[i - 1]);
                assert(l0.allocated(chain[i - 1]));
            }
        }
        assert forall|i: int| 0 <= i < new_chain.len() implies l.prev_of(#[trigger] new_chain[i])
            == if i == 0 {
            None
        } else {
            Some(new_chain[i - 1])
        } by {
            if i > 0 {
                assert(new_chain[i] == chain[i - 1]);
                assert(chain.contains(chain[i - 1]));
                assert(l0.prev_of(chain[i - 1]) == if i == 1 {
                    None
                } else {
                    Some(chain[i - 2])
                });
            }
        }
        assert forall|i: int| 0 <= i < new_chain.len() implies l.next_of(#[trigger] new_chain[i])
            == if i + 1 == new_chain.len() {
            None
        } else {
            Some(new_chain[i + 1])
        } by {
            if i > 0 {
                assert(new_chain[i] == chain[i - 1]);
                assert(chain.contains(chain[i - 1]));
                assert(l0.next_of(chain[i - 1]) == if i == chain.len() {
                    None
                } else {
                    Some(chain[i])
                });
            }
        }
        assert(new_chain.no_duplicates()) by {
            assert forall|i: int, j: int|
                0 <= i < new_chain.len() && 0 <= j < new_chain.len() && i != j implies new_chain[i]
                != new_chain[j] by {
                if i > 0 && j > 0 {
                    assert(new_chain[i] == chain[i - 1]);
                    assert(new_chain[j] == chain[j - 1]);
                } else if i == 0 {
                    assert(chain.contains(new_chain[j]));
                } else {
                    assert(chain.contains(new_chain[i]));
                }
            }
        }
        assert forall|k: int| 0 <= k < l.free@.len() implies #[trigger] l.free@[k] < l.slots@.len()
            && l.slots@[l.free@[k] as int] is None by {
            assert(l0.free@[k] < l0.slots@.len());
        }
    }

    proof fn lemma_linked_back(l0: Self, l: Self, c: usize)
        requires
            l0.wf(),
            l0.detached(c),
            l.free == l0.free,
            l.len == l0.len + 1,
            l.chain@ == l0.chain@.push(c),
            l.tail == Some(c),
            l.head == (if l0.chain@.len() == 0 {
                Some(c)
            } else {
                l0.head
            }),
            l.slots@.len() == l0.slots@.len(),
            l.slots@[c as int] == Some(Node { prev: l0.tail, next: None, data: l0.payload(c) }),
            match l0.tail {
                Some(t) => l.slots@[t as int] == Some(
                    Node { next: Some(c), ..l0.slots@[t as int]->Some_0 },
                ),
                None => true,
            },
            forall|d: int|
                0 <= d < l.slots@.len() && d != c && Some(d as usize) != l0.tail ==> l.slots@[d]
                    == l0.slots@[d],
        ensures
            l.wf(),
            l.same_payloads(&l0),
    {
        let chain = l0.chain@;
        let new_chain = l.chain@;
        let n = chain.len() as int;
        assert forall|i: int| 0 <= i < new_chain.len() implies l.allocated(#[trigger] new_chain[i]) by {
            if i < n {
                assert(l0.allocated(chain[i]));
            }
        }
        assert forall|i: int| 0 <= i < new_chain.len() implies l.prev_of(#[trigger] new_chain[i])
            == if i == 0 {
            None
        } else {
            Some(new_chain[i - 1])
        } by {
            if i < n {
                assert(chain.contains(chain[i]));
                assert(l0.prev_of(chain[i]) == if i == 0 {
                    None
                } else {
                    Some(chain[i - 1])
                });
            }
        }
        assert forall|i: int| 0 <= i < new_chain.len() implies l.next_of(#[trigger] new_chain[i])
            == if i + 1 == new_chain.len() {
            None
        } else {
            Some(new_chain[i + 1])
        } by {
            if i < n {
                assert(chain.contains(chain[i]));
                assert(l0.next_of(chain[i]) == if i + 1 == n {
                    None
                } else {
                    Some(chain[i + 1])
                });
            }
        }
        assert(new_chain.no_duplicates()) by {
            assert forall|i: int, j: int|
                0 <= i < new_chain.len() && 0 <= j < new_chain.len() && i != j implies new_chain[i]
                != new_chain[j] by {
                if i < n && j < n {
                } else if i == n {
                    assert(chain.contains(new_chain[j]));
                } else {
                    assert(chain.contains(new_chain[i]));
                }
            }
        }
        assert forall|k: int| 0 <= k < l.free@.len() implies #[trigger] l.free@[k] < l.slots@.len()
            && l.slots@[l.free@[k] as int] is None by {
            assert(l0.free@[k] < l0.slots@.len());
        }
    }

    /// Links the detached cell `c` in at the front.
    pub(crate) fn push_front_node(&mut self, c: usize)
        requires
            old(self).wf(),
            old(self).detached(c),
        ensures
            final(self).wf(),
            final(self).cells() == seq![c] + old(self).cells(),
            final(self).same_payloads(old(self)),
    {
        proof {
            self.lemma_room(c);
        }
        let ghost l0 = *self;
        match self.head {
            Some(h) => {
                self.set_prev(h, Some(c));
            },
            None => {
                self.tail = Some(c);
            },
        }
        let head = self.head;
        self.set_prev(c, None);
        self.set_next(c, head);
        self.head = Some(c);
        self.len = self.len + 1;
        self.chain = Ghost(seq![c] + self.chain@);
        proof {
            Self::lemma_linked_front(l0, *self, c);
        }
    }

    /// Links the detached cell `c` in at the back.
    pub(crate) fn push_back_node(&mut self, c: usize)
        requires
            old(self).wf(),
            old(self).detached(c),
        ensures
            final(self).wf(),
            final(self).cells() == old(self).cells().push(c),
            final(self).same_payloads(old(self)),
    {
        proof {
            self.lemma_room(c);
        }
        let ghost l0 = *self;
        match self.tail {
            Some(t) => {
                self.set_next(t, Some(c));
            },
            None => {
                self.head = Some(c);
            },
        }
        let tail = self.tail;
        self.set_next(c, None);
        self.set_prev(c, tail);
        self.tail = Some(c);
        self.len = self.len + 1;
        self.chain = Ghost(self.chain@.push(c));
        proof {
            Self::lemma_linked_back(l0, *self, c);
        }
    }

    /// Unlinks the front cell and hands it back, detached.
    pub(crate) fn pop_front_node(&mut self) -> (r: Option<usize>)
        requires
            old(self).wf(),
        ensures
            final(self).wf(),
            final(self).same_payloads(old(self)),
            match r {
                Some(c) => old(self).cells().len() > 0 && c == old(self).cells()[0]
                    && final(self).cells() == old(self).cells().drop_first(),
                None => old(self).cells().len() == 0 && final(self).cells() == old(self).cells(),
            },
    {
        match self.head {
            Some(h) => {
                let ghost chain = self.chain@;
                let ghost new_chain = chain.drop_first();
                proof {
                    assert(self.allocated(chain[0]));
                }
                let next = self.next_link(h);
                match next {
                    Some(n) => {
                        proof {
                            assert(self.allocated(chain[1]));
                        }
                        self.set_prev(n, None);
                        self.head = Some(n);
                    },
                    None => {
                        self.head = None;
                        self.tail = None;
                    },
                }
                self.len = self.len - 1;
                self.chain = Ghost(new_chain);
                proof {
                    assert forall|i: int| 0 <= i < new_chain.len() implies self.allocated(
                        #[trigger] new_chain[i],
                    ) by {
                        assert(old(self).allocated(chain[i + 1]));
                    }
                    assert forall|i: int| 0 <= i < new_chain.len() implies self.prev_of(
                        #[trigger] new_chain[i],
                    ) == if i == 0 {
                        None
                    } else {
                        Some(new_chain[i - 1])
                    } by {
                        assert(chain[i + 1] == new_chain[i]);
                        assert(old(self).prev_of(chain[i + 1]) == Some(chain[i]));
                        if i > 0 {
                            assert(chain[i + 1] != chain[1]);
                        }
                    }
                    assert forall|i: int| 0 <= i < new_chain.len() implies self.next_of(
                        #[trigger] new_chain[i],
                    ) == if i + 1 == new_chain.len() {
                        None
                    } else {
                        Some(new_chain[i + 1])
                    } by {
                        assert(chain[i + 1] == new_chain[i]);
                        assert(old(self).next_of(chain[i + 1]) == if i + 2 == chain.len() {
                            None
                        } else {
                            Some(chain[i + 2])
                        });
                    }
                    assert(new_chain.no_duplicates()) by {
                        assert forall|i: int, j: int|
                            0 <= i < new_chain.len() && 0 <= j < new_chain.len() && i
                                != j implies new_chain[i] != new_chain[j] by {
                            assert(new_chain[i] == chain[i + 1]);
                            assert(new_chain[j] == chain[j + 1]);
                        }
                    }
                }
                Some(h)
            },
            None => None,
        }
    }

    /// Unlinks the back cell and hands it back, detached.
    pub(crate) fn pop_back_node(&mut self) -> (r: Option<usize>)
        requires
            old(self).wf(),
        ensures
            final(self).wf(),
            final(self).same_payloads(old(self)),
            match r {
                Some(c) => old(self).cells().len() > 0 && c == old(self).cells().last()
                    && final(self).cells() == old(self).cells().drop_last(),
                None => old(self).cells().len() == 0 && final(self).cells() == old(self).cells(),
            },
    {
        match self.tail {
            Some(t) => {
                let ghost chain = self.chain@;
                let ghost n = chain.len() as int;
                let ghost new_chain = chain.drop_last();
                proof {
                    assert(self.allocated(chain[n - 1]));
                }
                let prev = self.prev_link(t);
                match prev {
                    Some(p) => {
                        proof {
                            assert(self.allocated(chain[n - 2]));
                        }
                        self.set_next(p, None);
                        self.tail = Some(p);
                    },
                    None => {
                        self.head = None;
                        self.tail = None;
                    },
                }
                self.len = self.len - 1;
                self.chain = Ghost(new_chain);
                proof {
                    assert forall|i: int| 0 <= i < new_chain.len() implies self.allocated(
                        #[trigger] new_chain[i],
                    ) by {
                        assert(old(self).allocated(chain[i]));
                    }
                    assert forall|i: int| 0 <= i < new_chain.len() implies self.prev_of(
                        #[trigger] new_chain[i],
                    ) == if i == 0 {
                        None
                    } else {
                        Some(new_chain[i - 1])
                    } by {
                        assert(old(self).prev_of(chain[i]) == if i == 0 {
                            None
                        } else {
                            Some(chain[i - 1])
                        });
                    }
                    assert forall|i: int| 0 <= i < new_chain.len() implies self.next_of(
                        #[trigger] new_chain[i],
                    ) == if i + 1 == new_chain.len() {
                        None
                    } else {
                        Some(new_chain[i + 1])
                    } by {
                        assert(old(self).next_of(chain[i]) == Some(chain[i + 1]));
                        if i + 1 < new_chain.len() {
                            assert(chain[i] != chain[n - 2]);
                        }
                    }
                }
                Some(t)
            },
            None => None,
        }
    }

    proof fn lemma_unlinked(l0: Self, l: Self, k: int)
        requires
            l0.wf(),
            0 <= k < l0.chain@.len(),
            l.free == l0.free,
            l.len + 1 == l0.len,
            l.chain@ == l0.chain@.remove(k),
            l.slots@.len() == l0.slots@.len(),
            l.head == (if k == 0 {
                l0.next_of(l0.chain@[k])
            } else {
                l0.head
            }),
            l.tail == (if k + 1 == l0.chain@.len() {
                l0.prev_of(l0.chain@[k])
            } else {
                l0.tail
            }),
            k > 0 ==> l.slots@[l0.chain@[k - 1] as int] == Some(
                Node {
                    next: l0.next_of(l0.chain@[k]),
                    ..l0.slots@[l0.chain@[k - 1] as int]->Some_0
                },
            ),
            k + 1 < l0.chain@.len() ==> l.slots@[l0.chain@[k + 1] as int] == Some(
                Node {
                    prev: l0.prev_of(l0.chain@[k]),
                    ..l0.slots@[l0.chain@[k + 1] as int]->Some_0
                },
            ),
            forall|d: int|
                0 <= d < l.slots@.len() && (k == 0 || d != l0.chain@[k - 1]) && (k + 1
                    == l0.chain@.len() || d != l0.chain@[k + 1]) ==> l.slots@[d] == l0.slots@[d],
        ensures
            l.wf(),
            l.same_payloads(&l0),
            l.detached(l0.chain@[k]),
    {
        let chain = l0.chain@;
        let new_chain = l.chain@;
        let n = chain.len() as int;
        let c = chain[k];
        assert(l0.allocated(chain[k]));
        assert(l0.prev_of(chain[k]) == if k == 0 {
            None
        } else {
            Some(chain[k - 1])
        });
        assert(l0.next_of(chain[k]) == if k + 1 == n {
            None
        } else {
            Some(chain[k + 1])
        });
        if k > 0 {
            assert(l0.allocated(chain[k - 1]));
        }
        if k + 1 < n {
            assert(l0.allocated(chain[k + 1]));
        }
        assert forall|i: int| 0 <= i < new_chain.len() implies l.allocated(#[trigger] new_chain[i]) by {
            let i2 = if i < k {
                i
            } else {
                i + 1
            };
            assert(new_chain[i] == chain[i2]);
            assert(l0.allocated(chain[i2]));
        }
        assert forall|i: int| 0 <= i < new_chain.len() implies #[trigger] l.prev_of(new_chain[i])
            == if i == 0 {
            None
        } else {
            Some(new_chain[i - 1])
        } by {
            let i2 = if i < k {
                i
            } else {
                i + 1
            };
            assert(new_chain[i] == chain[i2]);
            assert(l0.prev_of(chain[i2]) == if i2 == 0 {
                None
            } else {
                Some(chain[i2 - 1])
            });
            if k > 0 && i2 != k - 1 {
                assert(chain[i2] != chain[k - 1]);
            }
            if k + 1 < n && i2 != k + 1 {
                assert(chain[i2] != chain[k + 1]);
            }
        }
        assert forall|i: int| 0 <= i < new_chain.len() implies #[trigger] l.next_of(new_chain[i])
            == if i + 1 == new_chain.len() {
            None
        } else {
            Some(new_chain[i + 1])
        } by {
            let i2 = if i < k {
                i
            } else {
                i + 1
            };
            assert(new_chain[i] == chain[i2]);
            assert(l0.next_of(chain[i2]) == if i2 + 1 == n {
                None
            } else {
                Some(chain[i2 + 1])
            });
            if k > 0 && i2 != k - 1 {
                assert(chain[i2] != chain[k - 1]);
            }
            if k + 1 < n && i2 != k + 1 {
                assert(chain[i2] != chain[k + 1]);
            }
        }
        assert(new_chain.no_duplicates()) by {
            assert forall|i: int, j: int|
                0 <= i < new_chain.len() && 0 <= j < new_chain.len() && i != j implies new_chain[i]
                != new_chain[j] by {
                let i2 = if i < k {
                    i
                } else {
                    i + 1
                };
                let j2 = if j < k {
                    j
                } else {
                    j + 1
                };
                assert(new_chain[i] == chain[i2]);
                assert(new_chain[j] == chain[j2]);
            }
        }
        assert(!new_chain.contains(c)) by {
            if new_chain.contains(c) {
                let i = choose|i: int| 0 <= i < new_chain.len() && new_chain[i] == c;
                let i2 = if i < k {
                    i
                } else {
                    i + 1
                };
                assert(new_chain[i] == chain[i2]);
            }
        }
        assert forall|k2: int| 0 <= k2 < l.free@.len() implies #[trigger] l.free@[k2]
            < l.slots@.len() && l.slots@[l.free@[k2] as int] is None by {
            assert(l0.free@[k2] < l0.slots@.len());
        }
        if n > 1 {
            assert(new_chain.last() == if k + 1 == n {
                chain[k - 1]
            } else {
                chain.last()
            });
        }
    }

    /// Unlinks the cell `c` from wherever it stands in the chain; it stays allocated.
    pub(crate) fn unlink_node(&mut self, c: usize)
        requires
            old(self).wf(),
            old(self).cells().contains(c),
        ensures
            final(self).wf(),
            final(self).same_payloads(old(self)),
            final(self).cells() == old(self).cells().remove(old(self).cells().index_of(c)),
            final(self).detached(c),
    {
        let ghost l0 = *self;
        let ghost chain = self.chain@;
        let ghost k = chain.index_of(c);
        proof {
            assert(self.allocated(chain[k]));
            assert(self.prev_of(chain[k]) == if k == 0 {
                None
            } else {
                Some(chain[k - 1])
            });
            assert(self.next_of(chain[k]) == if k + 1 == chain.len() {
                None
            } else {
                Some(chain[k + 1])
            });
            if k > 0 {
                assert(self.allocated(chain[k - 1]));
            }
            if k + 1 < chain.len() {
                assert(self.allocated(chain[k + 1]));
                assert(chain[k + 1] != chain[k - 1] || k == 0);
            }
        }
        let prev = self.prev_link(c);
        let next = self.next_link(c);
        match prev {
            Some(p) => {
                self.set_next(p, next);
            },
            None => {
                self.head = next;
            },
        }
        match next {
            Some(x) => {
                self.set_prev(x, prev);
            },
            None => {
                self.tail = prev;
            },
        }
        self.len = self.len - 1;
        self.chain = Ghost(chain.remove(k));
        proof {
            Self::lemma_unlinked(l0, *self, k);
        }
    }

    proof fn lemma_links_kept(l0: Self, l: Self)
        requires
            l0.wf(),
            l.chain == l0.chain,
            l.len == l0.len,
            l.head == l0.head,
            l.tail == l0.tail,
            forall|i: int|
                0 <= i < l0.chain@.len() ==> l.allocated(#[trigger] l0.chain@[i]) && l.prev_of(
                    l0.chain@[i],
                ) == l0.prev_of(l0.chain@[i]) && l.next_of(l0.chain@[i]) == l0.next_of(
                    l0.chain@[i],
                ),
            l.free@.no_duplicates(),
            forall|k: int|
                0 <= k < l.free@.len() ==> #[trigger] l.free@[k] < l.slots@.len()
                    && l.slots@[l.free@[k] as int] is None,
        ensures
            l.wf(),
    {
    }
}

impl<T> View for DoublyList<T> {
    type V = Seq<T>;

    open spec fn view(&self) -> Seq<T> {
        self.cells().map_values(|c: usize| self.payload(c))
    }
}

impl<T> Default for DoublyList<T> {
    fn default() -> (l: Self)
        ensures
            l.wf(),
            l@ == Seq::<T>::empty(),
    {
        Self::new()
    }
}

/// Owning iterator over a list: each step takes the front or the back item.
pub struct IntoIter<T>(DoublyList<T>);

impl<T> View for IntoIter<T> {
    type V = Seq<T>;

    /// The items not handed out yet, front to back.
    open spec fn view(&self) -> Seq<T> {
        self.list()@
    }
}

impl<T> IntoIter<T> {
    pub closed spec fn list(&self) -> DoublyList<T> {
        self.0
    }

    pub open spec fn wf(&self) -> bool {
        self.list().wf()
    }

    pub fn next(&mut self) -> (r: Option<T>)
        requires
            old(self).wf(),
        ensures
            final(self).wf(),
            match r {
                Some(x) => old(self)@.len() > 0 && x == old(self)@[0] && final(self)@
                    == old(self)@.drop_first(),
                None => old(self)@.len() == 0 && final(self)@ == old(self)@,
            },
    {
        self.0.pop_front()
    }

    pub fn next_back(&mut self) -> (r: Option<T>)
        requires
            old(self).wf(),
        ensures
            final(self).wf(),
            match r {
                Some(x) => old(self)@.len() > 0 && x == old(self)@.last() && final(self)@
                    == old(self)@.drop_last(),
                None => old(self)@.len() == 0 && final(self)@ == old(self)@,
            },
    {
        self.0.pop_back()
    }
}

} // verus!
