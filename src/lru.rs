use crate::doublylist::DoublyList;
use std::collections::HashMap;
use std::hash::Hash;
use vstd::pervasive::strictly_cloned;
use vstd::prelude::*;
use vstd::std_specs::hash::obeys_key_model;

verus! {

broadcast use vstd::std_specs::hash::group_hash_axioms;

/// Keys whose hashing and equality agree with identity, and whose clones are identical.
pub open spec fn well_behaved_key<K: Clone>() -> bool {
    &&& obeys_key_model::<K>()
    &&& forall|a: K, b: K| #[trigger] strictly_cloned(a, b) ==> a == b
}

/// `s` with `k` taken from where it stands and put in front.
pub open spec fn promote<K>(s: Seq<K>, k: K) -> Seq<K> {
    seq![k] + s.remove(s.index_of(k))
}

/// What a cache holds: its keys from the most to the least recently touched, the value
/// under each key, and the most entries it may hold.
#[verifier::ext_equal]
#[verifier::reject_recursive_types(K)]
pub struct LruModel<K, V> {
    pub recency: Seq<K>,
    pub entries: Map<K, V>,
    pub capacity: nat,
}

impl<K, V> LruModel<K, V> {
    pub open spec fn wf(self) -> bool {
        &&& self.recency.no_duplicates()
        &&& forall|k: K| #[trigger] self.recency.contains(k) <==> self.entries.contains_key(k)
        &&& self.recency.len() <= self.capacity
    }

    pub open spec fn len(self) -> nat {
        self.recency.len()
    }

    /// A read that finds `k` moves it to the front.
    pub open spec fn touch(self, k: K) -> Self {
        if self.entries.contains_key(k) {
            LruModel { recency: promote(self.recency, k), ..self }
        } else {
            self
        }
    }

    /// The least recently touched entry leaves.
    pub open spec fn evict(self) -> Self {
        if self.recency.len() == 0 {
            self
        } else {
            LruModel {
                recency: self.recency.drop_last(),
                entries: self.entries.remove(self.recency.last()),
                ..self
            }
        }
    }

    /// `k` leaves, wherever it stands.
    pub open spec fn remove(self, k: K) -> Self {
        if self.entries.contains_key(k) {
            LruModel {
                recency: self.recency.remove(self.recency.index_of(k)),
                entries: self.entries.remove(k),
                ..self
            }
        } else {
            self
        }
    }

    /// Writing `v` under `k`: a present key is touched and takes the new value; a new key
    /// goes in front, after the least recently touched entry left if the cache was full.
    /// With capacity zero nothing is kept.
    pub open spec fn insert(self, k: K, v: V) -> Self {
        if self.entries.contains_key(k) {
            LruModel { entries: self.entries.insert(k, v), ..self.touch(k) }
        } else if self.capacity == 0 {
            self
        } else {
            let room = if self.recency.len() >= self.capacity {
                self.evict()
            } else {
                self
            };
            LruModel { recency: seq![k] + room.recency, entries: room.entries.insert(k, v), ..room }
        }
    }
}

/// The model after writing `vs[i]` under `ks[i]` for each `i` in order, with no reads between.
pub open spec fn insert_all<K, V>(m: LruModel<K, V>, ks: Seq<K>, vs: Seq<V>) -> LruModel<K, V>
    decreases ks.len(),
{
    if ks.len() == 0 || vs.len() == 0 {
        m
    } else {
        insert_all(m, ks.drop_last(), vs.drop_last()).insert(ks.last(), vs.last())
    }
}

/// A well-formed model indexes exactly as many keys as its recency order holds.
pub proof fn lemma_index_size<K, V>(m: LruModel<K, V>)
    requires
        m.wf(),
    ensures
        m.entries.dom().finite(),
        m.entries.dom().len() == m.len(),
{
    assert(m.entries.dom() =~= m.recency.to_set());
    m.recency.unique_seq_to_set();
}

/// Every operation keeps the model well formed; a write that finds its key, or a cache of
/// capacity zero, keeps the size, a new key adds one unless an entry had to leave, and a
/// removal of a present key takes one away. So the size is always what was added less what
/// left, and never more than the capacity.
pub proof fn lemma_sizes<K, V>(m: LruModel<K, V>, k: K, v: V)
    requires
        m.wf(),
    ensures
        m.touch(k).wf(),
        m.touch(k).len() == m.len(),
        m.insert(k, v).wf(),
        m.insert(k, v).len() == if m.entries.contains_key(k) || m.capacity == 0 {
            m.len()
        } else if m.len() == m.capacity {
            m.len()
        } else {
            m.len() + 1
        },
        m.insert(k, v).len() <= m.capacity,
        m.remove(k).wf(),
        m.remove(k).len() == if m.entries.contains_key(k) {
            m.len() - 1
        } else {
            m.len() as int
        },
{
    lemma_touch_wf(m, k);
    lemma_evict_wf(m);
    if m.entries.contains_key(k) {
        let i = m.recency.index_of(k);
        assert(m.recency.contains(k));
        lemma_remove_at_wf(m.recency, i);
        let r = m.remove(k);
        assert forall|x: K| #[trigger] r.recency.contains(x) <==> r.entries.contains_key(x) by {
            if r.recency.contains(x) {
                let j = choose|j: int| 0 <= j < r.recency.len() && r.recency[j] == x;
                let j2 = if j < i {
                    j
                } else {
                    j + 1
                };
                assert(m.recency[j2] == x);
                assert(m.recency.contains(x));
            }
            if r.entries.contains_key(x) {
                assert(m.recency.contains(x));
                let j = choose|j: int| 0 <= j < m.recency.len() && m.recency[j] == x;
                assert(j != i);
                let j2 = if j < i {
                    j
                } else {
                    j - 1
                };
                assert(r.recency[j2] == x);
            }
        }
        let t = m.touch(k);
        let w = m.insert(k, v);
        assert forall|x: K| #[trigger] w.recency.contains(x) <==> w.entries.contains_key(x) by {
            assert(t.recency.contains(x) <==> t.entries.contains_key(x));
        }
    } else if m.capacity != 0 {
        let room = if m.recency.len() >= m.capacity {
            m.evict()
        } else {
            m
        };
        let w = m.insert(k, v);
        assert(!room.recency.contains(k));
        assert(w.recency.no_duplicates()) by {
            assert forall|i: int, j: int| 0 <= i < w.recency.len() && 0 <= j < w.recency.len() && i
                != j implies w.recency[i] != w.recency[j] by {
                if i > 0 && j > 0 {
                    assert(w.recency[i] == room.recency[i - 1]);
                    assert(w.recency[j] == room.recency[j - 1]);
                } else if i == 0 {
                    assert(room.recency.contains(w.recency[j]));
                } else {
                    assert(room.recency.contains(w.recency[i]));
                }
            }
        }
        assert forall|x: K| #[trigger] w.recency.contains(x) <==> w.entries.contains_key(x) by {
            if w.recency.contains(x) && x != k {
                let j = choose|j: int| 0 <= j < w.recency.len() && w.recency[j] == x;
                assert(room.recency[j - 1] == x);
                assert(room.recency.contains(x));
            }
            if w.entries.contains_key(x) && x != k {
                assert(room.recency.contains(x));
                let j = choose|j: int| 0 <= j < room.recency.len() && room.recency[j] == x;
                assert(w.recency[j + 1] == x);
            }
            if x == k {
                assert(w.recency[0] == k);
            }
        }
    }
}

/// `a` stands before `b` in `s`.
pub open spec fn precedes<K>(s: Seq<K>, a: K, b: K) -> bool {
    exists|i: int, j: int| 0 <= i < j < s.len() && s[i] == a && s[j] == b
}

/// A touch or a write puts its key first, and no operation changes the order in which the
/// other keys that stay were last touched: the recency order runs from the most to the
/// least recently touched key.
pub proof fn lemma_recency_order<K, V>(m: LruModel<K, V>, k: K, v: V, a: K, b: K)
    requires
        m.wf(),
        precedes(m.recency, a, b),
        a != k,
        b != k,
    ensures
        m.entries.contains_key(k) ==> m.touch(k).recency[0] == k,
        m.capacity > 0 ==> m.insert(k, v).recency[0] == k,
        precedes(m.touch(k).recency, a, b),
        m.insert(k, v).entries.contains_key(a) && m.insert(k, v).entries.contains_key(b)
            ==> precedes(m.insert(k, v).recency, a, b),
        precedes(m.remove(k).recency, a, b),
{
    let s = m.recency;
    let (i, j) = choose|i: int, j: int| 0 <= i < j < s.len() && s[i] == a && s[j] == b;
    lemma_touch_wf(m, k);
    if m.entries.contains_key(k) {
        assert(s.contains(k));
        let p = s.index_of(k);
        let r = s.remove(p);
        let i1 = if i < p {
            i
        } else {
            i - 1
        };
        let j1 = if j < p {
            j
        } else {
            j - 1
        };
        assert(r[i1] == a && r[j1] == b);
        assert(m.remove(k).recency == r);
        let t = m.touch(k).recency;
        assert(t[i1 + 1] == a && t[j1 + 1] == b);
        assert(m.insert(k, v).recency == t);
    } else if m.capacity > 0 {
        let w = m.insert(k, v);
        let room = if s.len() >= m.capacity {
            m.evict()
        } else {
            m
        };
        if w.entries.contains_key(a) && w.entries.contains_key(b) {
            if s.len() >= m.capacity {
                assert(j != s.len() - 1);
            }
            assert(room.recency[i] == a && room.recency[j] == b);
            assert(w.recency[i + 1] == a && w.recency[j + 1] == b);
        }
    }
}

/// An empty model of capacity `capacity`.
pub open spec fn empty_model<K, V>(capacity: nat) -> LruModel<K, V> {
    LruModel { recency: Seq::empty(), entries: Map::empty(), capacity }
}

/// Writing distinct keys into an empty cache, with no reads between, keeps every one of them,
/// newest first, while they fit.
pub proof fn lemma_fill<K, V>(capacity: nat, ks: Seq<K>, vs: Seq<V>)
    requires
        ks.no_duplicates(),
        ks.len() <= capacity,
        vs.len() == ks.len(),
    ensures
        insert_all(empty_model(capacity), ks, vs).wf(),
        insert_all(empty_model(capacity), ks, vs).capacity == capacity,
        insert_all(empty_model(capacity), ks, vs).recency == ks.reverse(),
    decreases ks.len(),
{
    let e = empty_model::<K, V>(capacity);
    if ks.len() == 0 {
        assert(ks.reverse() =~= Seq::<K>::empty());
    } else {
        let front = ks.drop_last();
        assert(front.no_duplicates()) by {
            assert forall|a: int, b: int| 0 <= a < front.len() && 0 <= b < front.len() && a
                != b implies front[a] != front[b] by {
                assert(front[a] == ks[a] && front[b] == ks[b]);
            }
        }
        lemma_fill(capacity, front, vs.drop_last());
        let m = insert_all(e, front, vs.drop_last());
        assert(!m.recency.contains(ks.last())) by {
            if m.recency.contains(ks.last()) {
                let a = choose|a: int| 0 <= a < m.recency.len() && m.recency[a] == ks.last();
                assert(m.recency[a] == front[front.len() - 1 - a]);
                assert(front[front.len() - 1 - a] == ks[front.len() - 1 - a]);
            }
        }
        lemma_sizes(m, ks.last(), vs.last());
        assert(!m.entries.contains_key(ks.last()));
        assert(insert_all(e, ks, vs).recency =~= ks.reverse());
    }
}

/// Writing `capacity + 1` distinct keys into an empty cache, with no reads between, evicts
/// exactly the first key written and keeps all the others.
pub proof fn lemma_evicts_first<K, V>(capacity: nat, ks: Seq<K>, vs: Seq<V>)
    requires
        capacity >= 1,
        ks.no_duplicates(),
        ks.len() == capacity + 1,
        vs.len() == ks.len(),
    ensures
        !insert_all(empty_model(capacity), ks, vs).entries.contains_key(ks[0]),
        forall|i: int|
            1 <= i < ks.len() ==> #[trigger] insert_all(
                empty_model(capacity),
                ks,
                vs,
            ).entries.contains_key(ks[i]),
{
    let e = empty_model::<K, V>(capacity);
    let front = ks.drop_last();
    assert(front.no_duplicates()) by {
        assert forall|a: int, b: int| 0 <= a < front.len() && 0 <= b < front.len() && a
            != b implies front[a] != front[b] by {
            assert(front[a] == ks[a] && front[b] == ks[b]);
        }
    }
    lemma_fill(capacity, front, vs.drop_last());
    let m = insert_all(e, front, vs.drop_last());
    assert(m.recency.last() == ks[0]);
    assert(!m.recency.contains(ks.last())) by {
        if m.recency.contains(ks.last()) {
            let a = choose|a: int| 0 <= a < m.recency.len() && m.recency[a] == ks.last();
            assert(m.recency[a] == front[front.len() - 1 - a]);
            assert(front[front.len() - 1 - a] == ks[front.len() - 1 - a]);
        }
    }
    assert forall|i: int| 1 <= i < ks.len() - 1 implies m.entries.contains_key(ks[i]) by {
        assert(m.recency[front.len() - 1 - i] == ks[i]);
        assert(m.recency.contains(ks[i]));
    }
    assert(ks[0] != ks.last());
    assert(!m.entries.contains_key(ks.last()));
    assert(m.len() == capacity);
    lemma_evict_wf(m);
}

proof fn lemma_remove_at_wf<K>(s: Seq<K>, i: int)
    requires
        s.no_duplicates(),
        0 <= i < s.len(),
    ensures
        s.remove(i).no_duplicates(),
        !s.remove(i).contains(s[i]),
{
    let r = s.remove(i);
    assert forall|a: int, b: int| 0 <= a < r.len() && 0 <= b < r.len() && a != b implies r[a]
        != r[b] by {
        let a2 = if a < i {
            a
        } else {
            a + 1
        };
        let b2 = if b < i {
            b
        } else {
            b + 1
        };
        assert(r[a] == s[a2]);
        assert(r[b] == s[b2]);
    }
    if r.contains(s[i]) {
        let a = choose|a: int| 0 <= a < r.len() && r[a] == s[i];
        let a2 = if a < i {
            a
        } else {
            a + 1
        };
        assert(r[a] == s[a2]);
    }
}

proof fn lemma_touch_wf<K, V>(m: LruModel<K, V>, k: K)
    requires
        m.wf(),
    ensures
        m.touch(k).wf(),
        m.touch(k).len() == m.len(),
        m.entries.contains_key(k) ==> m.touch(k).recency[0] == k,
{
    if m.entries.contains_key(k) {
        assert(m.recency.contains(k));
        let i = m.recency.index_of(k);
        lemma_remove_at_wf(m.recency, i);
        let r = m.recency.remove(i);
        let t = m.touch(k);
        assert(t.recency == seq![k] + r);
        assert(t.recency.no_duplicates()) by {
            assert forall|a: int, b: int| 0 <= a < t.recency.len() && 0 <= b < t.recency.len() && a
                != b implies t.recency[a] != t.recency[b] by {
                if a > 0 && b > 0 {
                    assert(t.recency[a] == r[a - 1]);
                    assert(t.recency[b] == r[b - 1]);
                } else if a == 0 {
                    assert(r.contains(t.recency[b]));
                } else {
                    assert(r.contains(t.recency[a]));
                }
            }
        }
        assert forall|x: K| #[trigger] t.recency.contains(x) <==> t.entries.contains_key(x) by {
            if t.recency.contains(x) && x != k {
                let j = choose|j: int| 0 <= j < t.recency.len() && t.recency[j] == x;
                let j2 = if j - 1 < i {
                    j - 1
                } else {
                    j
                };
                assert(m.recency[j2] == x);
                assert(m.recency.contains(x));
            }
            if t.entries.contains_key(x) && x != k {
                assert(m.recency.contains(x));
                let j = choose|j: int| 0 <= j < m.recency.len() && m.recency[j] == x;
                assert(j != i);
                let j2 = if j < i {
                    j
                } else {
                    j - 1
                };
                assert(t.recency[j2 + 1] == x);
            }
            if x == k {
                assert(t.recency[0] == k);
            }
        }
    }
}

proof fn lemma_evict_wf<K, V>(m: LruModel<K, V>)
    requires
        m.wf(),
    ensures
        m.evict().wf(),
        m.recency.len() > 0 ==> m.evict().len() == m.len() - 1 && !m.evict().entries.contains_key(
            m.recency.last(),
        ),
{
    if m.recency.len() > 0 {
        let n = m.recency.len() as int;
        lemma_remove_at_wf(m.recency, n - 1);
        assert(m.recency.remove(n - 1) =~= m.recency.drop_last());
        let e = m.evict();
        assert forall|x: K| #[trigger] e.recency.contains(x) <==> e.entries.contains_key(x) by {
            if e.recency.contains(x) {
                let j = choose|j: int| 0 <= j < e.recency.len() && e.recency[j] == x;
                assert(m.recency[j] == x);
                assert(m.recency.contains(x));
            }
            if e.entries.contains_key(x) {
                assert(m.recency.contains(x));
                let j = choose|j: int| 0 <= j < m.recency.len() && m.recency[j] == x;
                assert(e.recency[j] == x);
            }
        }
    }
}

/// Least recently used cache: a bounded key/value store that, when full, makes room by
/// dropping the entry touched longest ago.
///
/// The recency order is a list whose cells carry the entries; the index maps each key to
/// its cell, so that a touched entry moves to the front in constant time.
#[verifier::reject_recursive_types(K)]
pub struct LruCache<K, V> {
    capacity: usize,
    list: DoublyList<(K, V)>,
    map: HashMap<K, usize>,
    keys: Ghost<Seq<K>>,
}

impl<K, V> View for LruCache<K, V> {
    type V = LruModel<K, V>;

    closed spec fn view(&self) -> LruModel<K, V> {
        LruModel {
            recency: self.keys@,
            entries: Map::new(
                |k: K| self.map@.contains_key(k),
                |k: K| self.list.payload(self.map@[k]).1,
            ),
            capacity: self.capacity as nat,
        }
    }
}

impl<K: Eq + Hash + Clone, V> LruCache<K, V> {
    pub closed spec fn wf(&self) -> bool {
        let cells = self.list.cells();
        let keys = self.keys@;
        &&& well_behaved_key::<K>()
        &&& self.list.wf()
        &&& cells.len() <= self.capacity
        &&& self.map@.len() == cells.len()
        &&& keys.len() == cells.len()
        &&& forall|i: int| 0 <= i < cells.len() ==> #[trigger] keys[i] == self.list.payload(cells[i]).0
        &&& forall|k: K| #[trigger]
            self.map@.contains_key(k) ==> cells.contains(self.map@[k]) && self.list.payload(
                self.map@[k],
            ).0 == k
        &&& forall|i: int|
            0 <= i < cells.len() ==> self.map@.contains_key(self.list.payload(#[trigger] cells[i]).0)
                && self.map@[self.list.payload(cells[i]).0] == cells[i]
    }

    pub fn with_capacity(capacity: usize) -> (c: Self)
        requires
            well_behaved_key::<K>(),
        ensures
            c.wf(),
            c@.recency == Seq::<K>::empty(),
            c@.entries == Map::<K, V>::empty(),
            c@.capacity == capacity,
    {
        let c = 
        LruCache {
            capacity,
            list: DoublyList::new(),
            map: HashMap::with_capacity(capacity),
            keys: Ghost(Seq::empty()),
        };
        assert(c@.entries =~= Map::<K, V>::empty());
        c
    }

    proof fn lemma_model(&self)
        requires
            self.wf(),
        ensures
            self@.wf(),
            self@.capacity == self.capacity,
            forall|k: K|
                #[trigger] self.map@.contains_key(k) ==> {
                    let i = self@.recency.index_of(k);
                    &&& 0 <= i < self@.recency.len()
                    &&& self@.recency[i] == k
                    &&& self.list.cells()[i] == self.map@[k]
                    &&& self.list.cells().index_of(self.map@[k]) == i
                },
    {
        let cells = self.list.cells();
        let rec = self@.recency;
        self.list.lemma_cells();
        assert forall|i: int, j: int| 0 <= i < rec.len() && 0 <= j < rec.len() && i != j implies rec[i]
            != rec[j] by {
            assert(self.map@[self.list.payload(cells[i]).0] == cells[i]);
            assert(self.map@[self.list.payload(cells[j]).0] == cells[j]);
        }
        assert forall|k: K| #[trigger] rec.contains(k) <==> self@.entries.contains_key(k) by {
            if rec.contains(k) {
                let i = choose|i: int| 0 <= i < rec.len() && rec[i] == k;
                assert(self.map@.contains_key(self.list.payload(cells[i]).0));
            }
            if self.map@.contains_key(k) {
                let i = choose|i: int| 0 <= i < cells.len() && cells[i] == self.map@[k];
                assert(rec[i] == k);
            }
        }
        assert forall|k: K| #[trigger] self.map@.contains_key(k) implies {
            let i = rec.index_of(k);
            &&& 0 <= i < rec.len()
            &&& rec[i] == k
            &&& cells[i] == self.map@[k]
            &&& cells.index_of(self.map@[k]) == i
        } by {
            let j = choose|j: int| 0 <= j < cells.len() && cells[j] == self.map@[k];
            assert(rec[j] == k);
            let i = rec.index_of(k);
            assert(rec[i] == k);
            assert(self.map@[self.list.payload(cells[i]).0] == cells[i]);
            let i2 = cells.index_of(self.map@[k]);
            assert(cells[i2] == self.map@[k]);
        }
    }

    /// The most entries the cache holds.
    pub fn capacity(&self) -> (r: usize)
        ensures
            r == self@.capacity,
    {
        self.capacity
    }

    /// A well-formed cache has a well-formed model, whose index holds as many keys as its
    /// recency order.
    pub proof fn lemma_view_wf(&self)
        requires
            self.wf(),
        ensures
            self@.wf(),
            self@.entries.dom().finite(),
            self@.entries.dom().len() == self@.len(),
    {
        self.lemma_model();
        lemma_index_size(self@);
    }

    pub fn len(&self) -> (r: usize)
        requires
            self.wf(),
        ensures
            r == self@.len(),
    {
        self.list.len()
    }

    pub fn is_empty(&self) -> (r: bool)
        requires
            self.wf(),
        ensures
            r == (self@.len() == 0),
    {
        self.list.is_empty()
    }

    /// Whether `key` is held; the recency order is left as it is.
    pub fn contains(&self, key: &K) -> (r: bool)
        requires
            self.wf(),
        ensures
            r == self@.entries.contains_key(*key),
    {
        self.map.contains_key(key)
    }

    /// The value under `key`, if any; the recency order is left as it is.
    pub fn peek(&self, key: &K) -> (r: Option<&V>)
        requires
            self.wf(),
        ensures
            match r {
                Some(v) => self@.entries.contains_key(*key) && *v == self@.entries[*key],
                None => !self@.entries.contains_key(*key),
            },
    {
        match self.map.get(key) {
            Some(c) => {
                proof {
                    self.list.lemma_cells();
                    assert(self.list.cells().contains(*c));
                }
                Some(&self.list.borrow_node_data(*c).1)
            },
            None => None,
        }
    }

    /// The value under `key`, if any, to be changed in place; a hit moves `key` to the front.
    pub fn get_mut(&mut self, key: &K) -> (r: Option<&mut V>)
        requires
            old(self).wf(),
        ensures
            final(self).wf(),
            match r {
                Some(v) => old(self)@.entries.contains_key(*key) && *v == old(self)@.entries[*key]
                    && final(self)@ =~= (LruModel {
                    entries: old(self)@.entries.insert(*key, *final(v)),
                    ..old(self)@.touch(*key)
                }),
                None => !old(self)@.entries.contains_key(*key) && final(self)@ == old(self)@,
            },
    {
        let c = match self.map.get(key) {
            Some(c) => *c,
            None => {
                return None;
            },
        };
        proof {
            self.lemma_model();
            self.list.lemma_cells();
        }
        let ghost l0 = self.list;
        let ghost m0 = self@;
        let ghost i = m0.recency.index_of(*key);
        self.list.unlink_node(c);
        self.list.push_front_node(c);
        let ghost touched = m0.touch(*key);
        self.keys = Ghost(touched.recency);
        proof {
            let cells0 = l0.cells();
            let cells1 = self.list.cells();
            assert(cells1 == seq![c] + cells0.remove(i));
            assert(touched.recency == seq![*key] + m0.recency.remove(i));
            assert forall|j: int| 0 <= j < cells1.len() implies #[trigger] touched.recency[j]
                == self.list.payload(cells1[j]).0 by {
                if j > 0 {
                    let j2 = if j - 1 < i {
                        j - 1
                    } else {
                        j
                    };
                    assert(cells1[j] == cells0[j2]);
                    assert(touched.recency[j] == m0.recency[j2]);
                    assert(l0.allocated(cells0[j2]));
                }
            }
            assert forall|k: K| #[trigger] self.map@.contains_key(k) implies cells1.contains(
                self.map@[k],
            ) && self.list.payload(self.map@[k]).0 == k by {
                let j = choose|j: int| 0 <= j < cells0.len() && cells0[j] == self.map@[k];
                assert(l0.allocated(cells0[j]));
                if self.map@[k] != c {
                    let j2 = if j < i {
                        j + 1
                    } else {
                        j
                    };
                    assert(cells1[j2] == cells0[j]);
                }
                assert(cells1[0] == c);
            }
            assert forall|j: int| 0 <= j < cells1.len() implies self.map@.contains_key(
                self.list.payload(#[trigger] cells1[j]).0,
            ) && self.map@[self.list.payload(cells1[j]).0] == cells1[j] by {
                let j2 = if j == 0 {
                    i
                } else if j - 1 < i {
                    j - 1
                } else {
                    j
                };
                assert(cells1[j] == cells0[j2]);
                assert(l0.allocated(cells0[j2]));
            }
            assert forall|k: K| #[trigger] self.map@.contains_key(k) implies touched.entries[k]
                == self.list.payload(self.map@[k]).1 by {
                assert(l0.cells().contains(self.map@[k]));
                let j = choose|j: int| 0 <= j < cells0.len() && cells0[j] == self.map@[k];
                assert(l0.allocated(cells0[j]));
            }
            assert(self@.entries =~= touched.entries);
        }
        let e = self.list.borrow_node_data_mut(c);
        Some(&mut e.1)
    }

    /// The value under `key`, if any; a hit moves `key` to the front.
    pub fn get(&mut self, key: &K) -> (r: Option<&V>)
        requires
            old(self).wf(),
        ensures
            final(self).wf(),
            match r {
                Some(v) => old(self)@.entries.contains_key(*key) && *v == old(self)@.entries[*key],
                None => !old(self)@.entries.contains_key(*key),
            },
            final(self)@ =~= old(self)@.touch(*key),
    {
        match self.get_mut(key) {
            Some(v) => Some(&*v),
            None => None,
        }
    }

    /// Writes `value` under `key`, touching `key`, and hands back the value it replaced.
    /// A new key goes in front; when the cache is full the least recently touched entry
    /// leaves first. A cache of capacity zero keeps nothing.
    pub fn insert(&mut self, key: K, value: V) -> (r: Option<V>)
        requires
            old(self).wf(),
        ensures
            final(self).wf(),
            r == (if old(self)@.entries.contains_key(key) {
                Some(old(self)@.entries[key])
            } else {
                None::<V>
            }),
            final(self)@ =~= old(self)@.insert(key, value),
    {
        let mut value = value;
        match self.get_mut(&key) {
            Some(v) => {
                std::mem::swap(v, &mut value);
                return Some(value);
            },
            None => {},
        }
        if self.capacity == 0 {
            return None;
        }
        let ghost m0 = self@;
        if self.len() >= self.capacity {
            self.remove_lru();
        }
        let ghost l1 = self.list;
        let ghost room = self@;
        proof {
            self.lemma_model();
            self.list.lemma_cells();
            assert(!self.map@.contains_key(key));
        }
        let k2 = key.clone();
        let c = self.list.new_node((k2, value));
        self.list.push_front_node(c);
        self.map.insert(key, c);
        self.keys = Ghost(seq![key] + self.keys@);
        proof {
            let cells0 = l1.cells();
            let cells1 = self.list.cells();
            assert(strictly_cloned(key, k2));
            assert(k2 == key);
            assert forall|j: int| 0 <= j < cells1.len() implies #[trigger] self.keys@[j]
                == self.list.payload(cells1[j]).0 by {
                if j > 0 {
                    assert(cells1[j] == cells0[j - 1]);
                    assert(l1.allocated(cells0[j - 1]));
                }
            }
            assert forall|k: K| #[trigger] self.map@.contains_key(k) implies cells1.contains(
                self.map@[k],
            ) && self.list.payload(self.map@[k]).0 == k by {
                if k != key {
                    let j = choose|j: int| 0 <= j < cells0.len() && cells0[j] == self.map@[k];
                    assert(l1.allocated(cells0[j]));
                    assert(cells1[j + 1] == cells0[j]);
                } else {
                    assert(cells1[0] == c);
                }
            }
            assert forall|j: int| 0 <= j < cells1.len() implies self.map@.contains_key(
                self.list.payload(#[trigger] cells1[j]).0,
            ) && self.map@[self.list.payload(cells1[j]).0] == cells1[j] by {
                if j > 0 {
                    assert(cells1[j] == cells0[j - 1]);
                    assert(l1.allocated(cells0[j - 1]));
                    assert(l1.payload(cells0[j - 1]).0 != key);
                }
            }
            assert forall|k: K| #[trigger] self.map@.contains_key(k) && k != key implies self.map@[k]
                != c by {
                let j = choose|j: int| 0 <= j < cells0.len() && cells0[j] == self.map@[k];
                assert(l1.allocated(cells0[j]));
            }
            assert(self@.entries =~= room.entries.insert(key, value));
        }
        None
    }

    /// `key` leaves the cache; its value is handed back.
    pub fn remove(&mut self, key: &K) -> (r: Option<V>)
        requires
            old(self).wf(),
        ensures
            final(self).wf(),
            r == (if old(self)@.entries.contains_key(*key) {
                Some(old(self)@.entries[*key])
            } else {
                None::<V>
            }),
            final(self)@ =~= old(self)@.remove(*key),
    {
        proof {
            self.lemma_model();
            self.list.lemma_cells();
        }
        let ghost l0 = self.list;
        let ghost map0 = self.map@;
        let ghost m0 = self@;
        match self.map.remove(key) {
            Some(c) => {
                let ghost i = m0.recency.index_of(*key);
                self.list.unlink_node(c);
                let e = self.list.unwrap_node_data(c);
                self.keys = Ghost(self.keys@.remove(i));
                proof {
                    let cells0 = l0.cells();
                    let cells1 = self.list.cells();
                    assert(cells1 == cells0.remove(i));
                    assert forall|j: int| 0 <= j < cells1.len() implies #[trigger] self.keys@[j]
                        == self.list.payload(cells1[j]).0 by {
                        let j2 = if j < i {
                            j
                        } else {
                            j + 1
                        };
                        assert(cells1[j] == cells0[j2]);
                        assert(l0.allocated(cells0[j2]));
                    }
                    assert forall|k: K| #[trigger] self.map@.contains_key(k) implies cells1.contains(
                        self.map@[k],
                    ) && self.list.payload(self.map@[k]).0 == k by {
                        assert(map0.contains_key(k));
                        let j = choose|j: int| 0 <= j < cells0.len() && cells0[j] == map0[k];
                        assert(l0.allocated(cells0[j]));
                        let j2 = if j < i {
                            j
                        } else {
                            j - 1
                        };
                        assert(cells1[j2] == cells0[j]);
                    }
                    assert forall|j: int| 0 <= j < cells1.len() implies self.map@.contains_key(
                        self.list.payload(#[trigger] cells1[j]).0,
                    ) && self.map@[self.list.payload(cells1[j]).0] == cells1[j] by {
                        let j2 = if j < i {
                            j
                        } else {
                            j + 1
                        };
                        assert(cells1[j] == cells0[j2]);
                        assert(l0.allocated(cells0[j2]));
                        assert(map0[l0.payload(cells0[j2]).0] == cells0[j2]);
                    }
                    assert forall|k: K| #[trigger] self.map@.contains_key(k) implies self.map@[k]
                        != c by {
                        assert(map0.contains_key(k));
                    }
                    assert(self@.entries =~= m0.entries.remove(*key));
                }
                Some(e.1)
            },
            None => None,
        }
    }

    /// Makes room: the least recently touched entry leaves.
    fn remove_lru(&mut self)
        requires
            old(self).wf(),
        ensures
            final(self).wf(),
            final(self)@ =~= old(self)@.evict(),
    {
        proof {
            self.lemma_model();
            self.list.lemma_cells();
        }
        let ghost l0 = self.list;
        let ghost map0 = self.map@;
        let ghost m0 = self@;
        match self.list.pop_back_node() {
            Some(c) => {
                let e = self.list.unwrap_node_data(c);
                let ghost n = l0.cells().len() as int;
                proof {
                    assert(l0.cells()[n - 1] == c);
                    assert(self.keys@[n - 1] == e.0);
                    assert(l0.allocated(l0.cells()[n - 1]));
                }
                self.map.remove(&e.0);
                self.keys = Ghost(self.keys@.drop_last());
                proof {
                    let cells0 = l0.cells();
                    let cells1 = self.list.cells();
                    assert forall|j: int| 0 <= j < cells1.len() implies #[trigger] self.keys@[j]
                        == self.list.payload(cells1[j]).0 by {
                        assert(cells1[j] == cells0[j]);
                        assert(l0.allocated(cells0[j]));
                    }
                    assert forall|k: K| #[trigger] self.map@.contains_key(k) implies cells1.contains(
                        self.map@[k],
                    ) && self.list.payload(self.map@[k]).0 == k by {
                        assert(map0.contains_key(k));
                        let j = choose|j: int| 0 <= j < cells0.len() && cells0[j] == map0[k];
                        assert(l0.allocated(cells0[j]));
                        assert(j != n - 1);
                        assert(cells1[j] == cells0[j]);
                    }
                    assert forall|j: int| 0 <= j < cells1.len() implies self.map@.contains_key(
                        self.list.payload(#[trigger] cells1[j]).0,
                    ) && self.map@[self.list.payload(cells1[j]).0] == cells1[j] by {
                        assert(cells1[j] == cells0[j]);
                        assert(l0.allocated(cells0[j]));
                        assert(map0[l0.payload(cells0[j]).0] == cells0[j]);
                    }
                    assert forall|k: K| #[trigger] self.map@.contains_key(k) implies self.map@[k]
                        != c by {
                        assert(map0.contains_key(k));
                    }
                    assert(self@.entries =~= m0.entries.remove(m0.recency.last()));
                }
            },
            None => {},
        }
    }
}

} // verus!
