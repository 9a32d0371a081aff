use core::cmp::Ordering;
use vstd::prelude::*;
use vstd::std_specs::cmp::PartialOrdSpec;

verus! {

broadcast use vstd::seq_lib::group_to_multiset_ensures;

/// `a < b` as the type's comparison decides it.
pub open spec fn less<T: PartialOrd>(a: T, b: T) -> bool {
    a.partial_cmp_spec(&b) == Some(Ordering::Less)
}

/// The comparison of `T` is what `Ord` documents: `<` is asymmetric, and "not less" is
/// transitive.
pub open spec fn sound_order<T: Ord>() -> bool {
    &&& T::obeys_partial_cmp_spec()
    &&& forall|a: T, b: T| #[trigger] less(a, b) ==> !less(b, a)
    &&& forall|a: T, b: T, c: T|
        #![trigger less(a, b), less(b, c)]
        !less(a, b) && !less(b, c) ==> !less(a, c)
}

pub open spec fn parent(i: int) -> int {
    (i - 1) / 2
}

/// Within `s[..end]`, every node whose parent is at `lo` or after and is not `pos` is no
/// greater than its parent; and if `pos` is below `lo`'s subtree root, its parent is no less
/// than its children.
pub open spec fn heap_except<T: Ord>(s: Seq<T>, lo: int, end: int, pos: int) -> bool {
    &&& forall|c: int|
        #![trigger s[c], s[parent(c)]]
        0 < c < end && parent(c) >= lo && parent(c) != pos ==> !less(s[parent(c)], s[c])
    &&& pos > lo ==> forall|c: int|
        #![trigger s[c], s[parent(c)]]
        0 < c < end && parent(c) == pos ==> !less(s[parent(pos)], s[c])
}

/// `s[..end]` is a max-heap.
pub open spec fn is_heap<T: Ord>(s: Seq<T>, end: int) -> bool {
    forall|c: int| #![trigger s[c], s[parent(c)]] 0 < c < end ==> !less(s[parent(c)], s[c])
}

/// Relies on `<[T]>::swap`: the items at `i` and `j` trade places; nothing else moves.
#[verifier::external_body]
fn swap_items<T>(v: &mut Vec<T>, i: usize, j: usize)
    requires
        i < old(v)@.len(),
        j < old(v)@.len(),
    ensures
        final(v)@ == old(v)@.update(i as int, old(v)@[j as int]).update(j as int, old(v)@[i as int]),
{
    v.swap(i, j)
}

proof fn lemma_swap_multiset<T>(s: Seq<T>, i: int, j: int)
    requires
        0 <= i < s.len(),
        0 <= j < s.len(),
    ensures
        s.update(i, s[j]).update(j, s[i]).to_multiset() =~= s.to_multiset(),
{
    broadcast use vstd::seq_lib::to_multiset_update;

    assert(s.update(i, s[j])[j] == s[j]);
}

/// Max-heap: the greatest item is always at hand.
pub struct Heap<T> {
    data: Vec<T>,
}

impl<T> View for Heap<T> {
    type V = Seq<T>;

    /// The items in the order the heap keeps them.
    closed spec fn view(&self) -> Seq<T> {
        self.data@
    }
}

impl<T: Ord> Heap<T> {
    pub open spec fn wf(&self) -> bool {
        &&& sound_order::<T>()
        &&& is_heap(self@, self@.len() as int)
    }

    /// The root of a heap is no less than any of its items.
    pub proof fn lemma_root_is_max(s: Seq<T>, end: int, i: int)
        requires
            sound_order::<T>(),
            is_heap(s, end),
            0 <= i < end <= s.len(),
        ensures
            !less(s[0], s[i]),
        decreases i,
    {
        if i > 0 {
            Self::lemma_root_is_max(s, end, parent(i));
            assert(!less(s[parent(i)], s[i]));
        } else {
            let x = s[0];
            if less(x, x) {
                assert(!less(x, x));
            }
        }
    }

    pub fn new() -> (h: Self)
        ensures
            sound_order::<T>() ==> h.wf(),
            h@ == Seq::<T>::empty(),
    {
        Heap { data: Vec::new() }
    }

    pub fn is_empty(&self) -> (r: bool)
        ensures
            r == (self@.len() == 0),
    {
        self.data.is_empty()
    }

    pub fn len(&self) -> (r: usize)
        ensures
            r == self@.len(),
    {
        self.data.len()
    }

    /// The greatest item, if any.
    pub fn peek(&self) -> (r: Option<&T>)
        requires
            self.wf(),
        ensures
            match r {
                Some(x) => self@.len() > 0 && *x == self@[0] && forall|i: int|
                    0 <= i < self@.len() ==> !less(*x, #[trigger] self@[i]),
                None => self@.len() == 0,
            },
    {
        if self.data.len() == 0 {
            None
        } else {
            proof {
                assert forall|i: int| 0 <= i < self@.len() implies !less(self@[0], #[trigger] self@[i]) by {
                    Self::lemma_root_is_max(self@, self@.len() as int, i);
                }
            }
            Some(&self.data[0])
        }
    }

    pub fn push(&mut self, item: T)
        requires
            old(self).wf(),
        ensures
            final(self).wf(),
            final(self)@.to_multiset() == old(self)@.to_multiset().insert(item),
    {
        let len = self.data.len();
        self.data.push(item);
        self.sift_up(len);
    }

    /// Takes out the greatest item, if any.
    pub fn pop(&mut self) -> (r: Option<T>)
        requires
            old(self).wf(),
        ensures
            final(self).wf(),
            match r {
                Some(x) => old(self)@.len() > 0 && x == old(self)@[0] && (forall|i: int|
                    0 <= i < old(self)@.len() ==> !less(x, #[trigger] old(self)@[i]))
                    && final(self)@.to_multiset() == old(self)@.to_multiset().remove(x),
                None => old(self)@.len() == 0 && final(self)@ == old(self)@,
            },
    {
        if self.is_empty() {
            None
        } else {
            proof {
                assert forall|i: int| 0 <= i < self@.len() implies !less(self@[0], #[trigger] self@[i]) by {
                    Self::lemma_root_is_max(self@, self@.len() as int, i);
                }
            }
            let ghost s = self@;
            let item = self.data.swap_remove(0);
            proof {
                broadcast use vstd::seq_lib::to_multiset_update;

                let u = s.update(0, s.last());
                assert(self@ == u.remove(u.len() - 1));
                assert(self@.to_multiset() =~= s.to_multiset().remove(s[0]));
                assert forall|c: int|
                    #![trigger self@[c], self@[parent(c)]]
                    0 < c < self@.len() && parent(c) >= 0 && parent(c) != 0 implies !less(
                    self@[parent(c)],
                    self@[c],
                ) by {
                    assert(self@[c] == s[c]);
                    assert(self@[parent(c)] == s[parent(c)]);
                }
            }
            self.sift_down(0);
            Some(item)
        }
    }

    pub fn into_vec(self) -> (v: Vec<T>)
        ensures
            v@ == self@,
    {
        self.data
    }

    /// The items in ascending order.
    pub fn into_sorted_vec(self) -> (v: Vec<T>)
        requires
            self.wf(),
        ensures
            v@.to_multiset() == self@.to_multiset(),
            forall|a: int, b: int| 0 <= a < b < v@.len() ==> !less(#[trigger] v@[b], #[trigger] v@[a]),
    {
        let ghost orig = self@;
        let mut heap = self;
        let len = heap.data.len();
        let mut i = len;
        while i > 1
            invariant
                sound_order::<T>(),
                heap@.len() == len,
                i <= len,
                len > 0 ==> i >= 1,
                is_heap(heap@, i as int),
                heap@.to_multiset() == orig.to_multiset(),
                forall|a: int, b: int|
                    i <= a < b < len ==> !less(#[trigger] heap@[b], #[trigger] heap@[a]),
                i < len ==> forall|k: int| 0 <= k < i ==> !less(heap@[i as int], #[trigger] heap@[k]),
            decreases i,
        {
            let ghost d = heap@;
            proof {
                assert forall|k: int| 0 <= k < i implies !less(d[0], #[trigger] d[k]) by {
                    Self::lemma_root_is_max(d, i as int, k);
                }
            }
            i = i - 1;
            swap_items(&mut heap.data, 0, i);
            let ghost d1 = heap@;
            proof {
                lemma_swap_multiset(d, 0, i as int);
                assert forall|c: int|
                    #![trigger d1[c], d1[parent(c)]]
                    0 < c < i && parent(c) >= 0 && parent(c) != 0 implies !less(
                    d1[parent(c)],
                    d1[c],
                ) by {
                    assert(d1[c] == d[c]);
                    assert(d1[parent(c)] == d[parent(c)]);
                }
            }
            heap.sift_down_range(0, i, Ghost(0));
            proof {
                let d2 = heap@;
                assert forall|a: int, b: int| i <= a < b < len implies !less(
                    #[trigger] d2[b],
                    #[trigger] d2[a],
                ) by {
                    if a == i {
                        assert(d2[a] == d[0]);
                        if b == i + 1 {
                            assert(!less(d[b], d[0]));
                        } else {
                            assert(!less(d[i + 1], d[0]));
                            assert(!less(d[b], d[i + 1]));
                        }
                    }
                }
                assert forall|k: int| 0 <= k < i implies !less(d2[i as int], #[trigger] d2[k]) by {
                    assert(d2.subrange(0, i as int).to_multiset().count(d2[k]) > 0) by {
                        assert(d2.subrange(0, i as int)[k] == d2[k]);
                        assert(d2.subrange(0, i as int).contains(d2[k]));
                    }
                    assert(d1.subrange(0, i as int).contains(d2[k]));
                    let m = choose|m: int| 0 <= m < i && d1.subrange(0, i as int)[m] == d2[k];
                    assert(d1[m] == d2[k]);
                    if m == 0 {
                        assert(d1[0] == d[i as int]);
                        assert(!less(d[0], d[i as int]));
                    } else {
                        assert(d1[m] == d[m]);
                    }
                }
            }
        }
        proof {
            if len > 0 {
                assert forall|a: int, b: int| 0 <= a < b < len implies !less(
                    #[trigger] heap@[b],
                    #[trigger] heap@[a],
                ) by {
                    if a == 0 && i == 1 {
                        assert(!less(heap@[1], heap@[0]));
                        if b > 1 {
                            assert(!less(heap@[b], heap@[1]));
                        }
                    }
                }
            }
        }
        heap.data
    }

    /// A heap holding the items of `items`.
    pub fn from_vec(items: Vec<T>) -> (h: Self)
        requires
            sound_order::<T>(),
        ensures
            h.wf(),
            h@.to_multiset() == items@.to_multiset(),
    {
        let mut heap = Heap { data: items };
        heap.rebuild();
        heap
    }

    fn rebuild(&mut self)
        requires
            sound_order::<T>(),
        ensures
            final(self).wf(),
            final(self)@.to_multiset() == old(self)@.to_multiset(),
    {
        let len = self.data.len();
        let mut i = len / 2;
        while i > 0
            invariant
                sound_order::<T>(),
                self@.len() == len,
                i <= len / 2,
                self@.to_multiset() == old(self)@.to_multiset(),
                forall|c: int|
                    #![trigger self@[c], self@[parent(c)]]
                    0 < c < len && parent(c) >= i ==> !less(self@[parent(c)], self@[c]),
            decreases i,
        {
            i = i - 1;
            self.sift_down(i);
        }
    }

    fn sift_up(&mut self, pos: usize)
        requires
            sound_order::<T>(),
            pos < old(self)@.len(),
            forall|c: int|
                #![trigger old(self)@[c], old(self)@[parent(c)]]
                0 < c < old(self)@.len() && c != pos ==> !less(old(self)@[parent(c)], old(self)@[c]),
            pos > 0 ==> forall|c: int|
                #![trigger old(self)@[c], old(self)@[parent(c)]]
                0 < c < old(self)@.len() && parent(c) == pos ==> !less(
                    old(self)@[parent(pos as int)],
                    old(self)@[c],
                ),
        ensures
            final(self).wf(),
            final(self)@.to_multiset() == old(self)@.to_multiset(),
            final(self)@.len() == old(self)@.len(),
        decreases pos,
    {
        if pos == 0 {
            return;
        }
        let p = (pos - 1) / 2;
        if self.data[p] < self.data[pos] {
            let ghost d = self@;
            swap_items(&mut self.data, pos, p);
            proof {
                let d1 = self@;
                let x = d[pos as int];
                let y = d[p as int];
                lemma_swap_multiset(d, pos as int, p as int);
                assert(!less(x, y));
                assert forall|c: int|
                    #![trigger d1[c], d1[parent(c)]]
                    0 < c < d1.len() && c != p implies !less(d1[parent(c)], d1[c]) by {
                    if c == pos {
                    } else if parent(c) == pos {
                        assert(d1[c] == d[c]);
                    } else if parent(c) == p {
                        assert(d1[c] == d[c]);
                        assert(!less(y, d[c]));
                    } else {
                        assert(d1[c] == d[c]);
                        assert(d1[parent(c)] == d[parent(c)]);
                    }
                }
                if p > 0 {
                    assert(!less(d[parent(p as int)], y));
                    assert forall|c: int|
                        #![trigger d1[c], d1[parent(c)]]
                        0 < c < d1.len() && parent(c) == p implies !less(
                        d1[parent(p as int)],
                        d1[c],
                    ) by {
                        assert(d1[parent(p as int)] == d[parent(p as int)]);
                        if c != pos {
                            assert(d1[c] == d[c]);
                            assert(!less(y, d[c]));
                        }
                    }
                }
            }
            self.sift_up(p);
        }
    }

    fn sift_down(&mut self, pos: usize)
        requires
            sound_order::<T>(),
            pos <= old(self)@.len(),
            heap_except(old(self)@, pos as int, old(self)@.len() as int, pos as int),
        ensures
            forall|c: int|
                #![trigger final(self)@[c], final(self)@[parent(c)]]
                0 < c < final(self)@.len() && parent(c) >= pos ==> !less(
                    final(self)@[parent(c)],
                    final(self)@[c],
                ),
            final(self)@.len() == old(self)@.len(),
            final(self)@.to_multiset() == old(self)@.to_multiset(),
    {
        let len = self.len();
        self.sift_down_range(pos, len, Ghost(pos as int));
        proof {
            assert(self@.subrange(0, len as int) =~= self@);
            assert(old(self)@.subrange(0, len as int) =~= old(self)@);
        }
    }

    proof fn lemma_settled(d: Seq<T>, lo: int, end: int, pos: int, child: int)
        requires
            sound_order::<T>(),
            end <= d.len(),
            0 <= lo <= pos,
            heap_except(d, lo, end, pos),
            2 * pos + 1 < end,
            child == 2 * pos + 1 || (child == 2 * pos + 2 && child < end),
            child == 2 * pos + 1 && 2 * pos + 2 < end ==> !less(d[child], d[2 * pos + 2]),
            child == 2 * pos + 2 ==> !less(d[child], d[2 * pos + 1]),
            !less(d[pos], d[child]),
        ensures
            forall|c: int|
                #![trigger d[c], d[parent(c)]]
                0 < c < end && parent(c) >= lo ==> !less(d[parent(c)], d[c]),
    {
        assert forall|c: int|
            #![trigger d[c], d[parent(c)]]
            0 < c < end && parent(c) >= lo implies !less(d[parent(c)], d[c]) by {
            if parent(c) == pos {
                assert(c == 2 * pos + 1 || c == 2 * pos + 2);
                if c != child {
                    assert(!less(d[child], d[c]));
                    assert(!less(d[pos], d[c]));
                }
            }
        }
    }

    proof fn lemma_swapped(d: Seq<T>, d1: Seq<T>, lo: int, end: int, pos: int, child: int)
        requires
            sound_order::<T>(),
            end <= d.len(),
            0 <= lo <= pos,
            pos > lo ==> parent(pos) >= lo,
            heap_except(d, lo, end, pos),
            2 * pos + 1 < end,
            child == 2 * pos + 1 || (child == 2 * pos + 2 && child < end),
            child == 2 * pos + 1 && 2 * pos + 2 < end ==> !less(d[child], d[2 * pos + 2]),
            child == 2 * pos + 2 ==> !less(d[child], d[2 * pos + 1]),
            less(d[pos], d[child]),
            d1 == d.update(pos, d[child]).update(child, d[pos]),
        ensures
            heap_except(d1, lo, end, child),
            parent(child) >= lo,
            d1.to_multiset() == d.to_multiset(),
            d1.subrange(0, end).to_multiset() == d.subrange(0, end).to_multiset(),
    {
        let x = d[pos];
        let y = d[child];
        let other = if child == 2 * pos + 1 {
            2 * pos + 2
        } else {
            2 * pos + 1
        };
        assert(parent(child) == pos);
        lemma_swap_multiset(d, pos, child);
        assert(d1.subrange(0, end) =~= d.subrange(0, end).update(pos, y).update(child, x));
        lemma_swap_multiset(d.subrange(0, end), pos, child);
        assert(!less(y, x));
        assert forall|c: int|
            #![trigger d1[c], d1[parent(c)]]
            0 < c < end && parent(c) >= lo && parent(c) != child implies !less(d1[parent(c)], d1[c]) by {
            if c == child {
            } else if c == other {
                assert(d1[c] == d[c]);
            } else if c == pos {
                assert(d1[parent(c)] == d[parent(c)]);
                assert(!less(d[parent(pos)], y));
            } else {
                assert(d1[c] == d[c]);
                assert(d1[parent(c)] == d[parent(c)]);
            }
        }
        assert forall|c: int|
            #![trigger d1[c], d1[parent(c)]]
            0 < c < end && parent(c) == child implies !less(d1[parent(child)], d1[c]) by {
            assert(d1[c] == d[c]);
            assert(c > child);
        }
    }

    /// Moves the item at `pos` down below its greater children, within `..end`, until the
    /// part of the tree under `lo` is a heap.
    fn sift_down_range(&mut self, pos: usize, end: usize, lo: Ghost<int>)
        requires
            sound_order::<T>(),
            end <= old(self)@.len(),
            0 <= lo@ <= pos,
            pos > lo@ ==> parent(pos as int) >= lo@,
            heap_except(old(self)@, lo@, end as int, pos as int),
        ensures
            forall|c: int|
                #![trigger final(self)@[c], final(self)@[parent(c)]]
                0 < c < end && parent(c) >= lo@ ==> !less(final(self)@[parent(c)], final(self)@[c]),
            final(self)@.len() == old(self)@.len(),
            final(self)@.to_multiset() == old(self)@.to_multiset(),
            final(self)@.subrange(0, end as int).to_multiset() == old(self)@.subrange(
                0,
                end as int,
            ).to_multiset(),
            forall|k: int| end <= k < old(self)@.len() ==> final(self)@[k] == old(self)@[k],
        decreases end - pos,
    {
        let ghost d = self@;
        if pos >= end / 2 {
            proof {
                assert forall|c: int|
                    #![trigger d[c], d[parent(c)]]
                    0 < c < end && parent(c) >= lo@ implies !less(d[parent(c)], d[c]) by {
                    if parent(c) == pos {
                        assert(c >= 2 * pos + 1);
                    }
                }
            }
            return;
        }
        let left = pos * 2 + 1;
        let right = left + 1;
        let child = if right < end && self.data[left] < self.data[right] {
            right
        } else {
            left
        };
        proof {
            assert(parent(left as int) == pos);
            assert(parent(right as int) == pos);
            if child == right {
                assert(!less(d[right as int], d[left as int]));
            }
        }
        if self.data[pos] < self.data[child] {
            swap_items(&mut self.data, pos, child);
            proof {
                Self::lemma_swapped(d, self@, lo@, end as int, pos as int, child as int);
            }
            self.sift_down_range(child, end, lo);
        } else {
            proof {
                Self::lemma_settled(d, lo@, end as int, pos as int, child as int);
            }
        }
    }
}

impl<T: Ord> Default for Heap<T> {
    fn default() -> (h: Self)
        ensures
            sound_order::<T>() ==> h.wf(),
            h@ == Seq::<T>::empty(),
    {
        Self::new()
    }
}

} // verus!
