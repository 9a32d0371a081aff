use std::collections::HashMap;
use std::collections::HashSet;
use vstd::prelude::*;

verus! {

broadcast use vstd::std_specs::hash::group_hash_axioms;

pub type Weight = usize;

pub type Vertex = usize;

pub type Vertices = HashSet<Vertex>;

pub type Edge = (Vertex, Vertex, Weight);

pub type Edges = Vec<Edge>;

pub type Path = Vec<Vertex>;

/// Directed graph with a weight on each edge.
pub struct Graph {
    data: HashMap<Vertex, HashMap<Vertex, Weight>>,
}

impl Graph {
    /// The weight of each edge, keyed by its source and target.
    pub closed spec fn weights(&self) -> Map<(Vertex, Vertex), Weight> {
        Map::new(
            |e: (Vertex, Vertex)| self.data@.contains_key(e.0) && self.data@[e.0]@.contains_key(e.1),
            |e: (Vertex, Vertex)| self.data@[e.0]@[e.1],
        )
    }

    pub closed spec fn wf(&self) -> bool {
        forall|s: Vertex|
            #[trigger] self.data@.contains_key(s) ==> exists|t: Vertex|
                self.data@[s]@.contains_key(t)
    }

    /// `v` is the source or the target of some edge.
    pub open spec fn has_vertex(&self, v: Vertex) -> bool {
        exists|e: (Vertex, Vertex)| #[trigger]
            self.weights().contains_key(e) && (e.0 == v || e.1 == v)
    }

    pub fn new() -> (g: Self)
        ensures
            g.wf(),
            g.weights() == Map::<(Vertex, Vertex), Weight>::empty(),
    {
        let g = Graph { data: HashMap::new() };
        assert(g.weights() =~= Map::<(Vertex, Vertex), Weight>::empty());
        g
    }

    /// The weight of the edge from `source` to `target`, if there is one.
    pub fn get_weight(&self, source: Vertex, target: Vertex) -> (r: Option<Weight>)
        ensures
            r == (if self.weights().contains_key((source, target)) {
                Some(self.weights()[(source, target)])
            } else {
                None::<Weight>
            }),
    {
        match self.data.get(&source) {
            Some(out) => match out.get(&target) {
                Some(w) => Some(*w),
                None => None,
            },
            None => None,
        }
    }

    /// Adds the edge from `source` to `target`, or sets its weight if it is there.
    pub fn add_edge(&mut self, source: Vertex, target: Vertex, weight: Weight)
        requires
            old(self).wf(),
        ensures
            final(self).wf(),
            final(self).weights() =~= old(self).weights().insert((source, target), weight),
    {
        let mut out = match self.data.remove(&source) {
            Some(m) => m,
            None => HashMap::new(),
        };
        out.insert(target, weight);
        self.data.insert(source, out);
        proof {
            assert(self.data@[source]@.contains_key(target));
            assert forall|s: Vertex| #[trigger] self.data@.contains_key(s) implies exists|t: Vertex|
                self.data@[s]@.contains_key(t) by {
                if s != source {
                    assert(old(self).data@.contains_key(s));
                    let t = choose|t: Vertex| old(self).data@[s]@.contains_key(t);
                    assert(self.data@[s]@.contains_key(t));
                } else {
                    assert(self.data@[s]@.contains_key(target));
                }
            }
        }
    }

    /// Adds each edge of `edges` in turn; a later weight for the same pair wins.
    pub fn extend(&mut self, edges: Vec<Edge>)
        requires
            old(self).wf(),
        ensures
            final(self).wf(),
            forall|s: Vertex, t: Vertex|
                #[trigger] final(self).weights().contains_key((s, t)) <==> old(self).weights().contains_key(
                    (s, t),
                ) || exists|k: int| 0 <= k < edges@.len() && edges@[k].0 == s && edges@[k].1 == t,
    {
        let mut i: usize = 0;
        while i < edges.len()
            invariant
                self.wf(),
                i <= edges@.len(),
                forall|s: Vertex, t: Vertex|
                    #[trigger] self.weights().contains_key((s, t)) <==> old(self).weights().contains_key(
                        (s, t),
                    ) || exists|k: int| 0 <= k < i && edges@[k].0 == s && edges@[k].1 == t,
            decreases edges@.len() - i,
        {
            let e = edges[i];
            self.add_edge(e.0, e.1, e.2);
            proof {
                assert forall|s: Vertex, t: Vertex|
                    #[trigger] self.weights().contains_key((s, t)) <==> old(self).weights().contains_key(
                        (s, t),
                    ) || exists|k: int| 0 <= k < i + 1 && edges@[k].0 == s && edges@[k].1 == t by {
                    if s == e.0 && t == e.1 {
                        assert(edges@[i as int].0 == s && edges@[i as int].1 == t);
                    }
                    if exists|k: int| 0 <= k < i + 1 && edges@[k].0 == s && edges@[k].1 == t {
                        let k = choose|k: int| 0 <= k < i + 1 && edges@[k].0 == s && edges@[k].1 == t;
                        if k < i {
                        }
                    }
                }
            }
            i = i + 1;
        }
    }

    /// The graph with the edges of `edges`.
    pub fn from_edges(edges: Vec<Edge>) -> (g: Self)
        ensures
            g.wf(),
            forall|s: Vertex, t: Vertex|
                #[trigger] g.weights().contains_key((s, t)) <==> exists|k: int|
                    0 <= k < edges@.len() && edges@[k].0 == s && edges@[k].1 == t,
    {
        let mut g = Graph::new();
        g.extend(edges);
        g
    }

    /// An order of all the vertices, each once, in which every edge goes forward.
    pub open spec fn is_topological(&self, order: Seq<Vertex>) -> bool {
        &&& order.no_duplicates()
        &&& forall|v: Vertex| #[trigger] order.contains(v) <==> self.has_vertex(v)
        &&& forall|i: int, j: int|
            0 <= i < order.len() && 0 <= j < order.len() && #[trigger] self.weights().contains_key(
                (order[i], order[j]),
            ) ==> i < j
    }

    /// A nonempty set of vertices each of which has an edge coming in from the set, so that
    /// none of them can come first: the graph has a cycle.
    pub open spec fn is_stuck(&self, vs: Set<Vertex>) -> bool {
        &&& exists|v: Vertex| vs.contains(v)
        &&& forall|v: Vertex|
            #[trigger] vs.contains(v) ==> exists|u: Vertex|
                vs.contains(u) && self.weights().contains_key((u, v))
    }

    /// Some vertex of `froms` has an edge into `v`.
    pub open spec fn fed_from(&self, froms: Seq<Vertex>, v: Vertex) -> bool {
        exists|b: int| 0 <= b < froms.len() && self.weights().contains_key((froms[b], v))
    }

    proof fn lemma_stuck(&self, t0: Seq<Vertex>, r0: Seq<Vertex>)
        requires
            t0.len() > 0,
            forall|x: Vertex| #[trigger] r0.contains(x) <==> t0.contains(x) && self.fed_from(t0, x),
            forall|x: Vertex| t0.contains(x) ==> #[trigger] r0.contains(x),
        ensures
            exists|vs: Set<Vertex>| self.is_stuck(vs),
    {
        let vs = t0.to_set();
        assert(r0.contains(t0[0]));
        assert(vs.contains(t0[0]));
        assert forall|v: Vertex| #[trigger] vs.contains(v) implies exists|u: Vertex|
            vs.contains(u) && self.weights().contains_key((u, v)) by {
            assert(t0.contains(v));
            assert(r0.contains(v));
            let b = choose|b: int| 0 <= b < t0.len() && self.weights().contains_key((t0[b], v));
            assert(vs.contains(t0[b]));
        }
        assert(self.is_stuck(vs));
    }

    proof fn lemma_round(&self, s0: Seq<Vertex>, t0: Seq<Vertex>, l0: Seq<Vertex>, r0: Seq<Vertex>)
        requires
            (s0 + t0).no_duplicates(),
            forall|v: Vertex| #[trigger] (s0 + t0).contains(v) <==> self.has_vertex(v),
            forall|j: int, u: Vertex|
                0 <= j < s0.len() && #[trigger] self.weights().contains_key((u, s0[j])) ==> exists|
                    i: int,
                | 0 <= i < j && s0[i] == u,
            l0.no_duplicates(),
            r0.no_duplicates(),
            forall|x: Vertex|
                #[trigger] l0.contains(x) <==> t0.contains(x) && !self.fed_from(t0, x),
            forall|x: Vertex| #[trigger] r0.contains(x) <==> t0.contains(x) && self.fed_from(t0, x),
        ensures
            (s0 + l0 + r0).no_duplicates(),
            forall|v: Vertex| #[trigger] (s0 + l0 + r0).contains(v) <==> self.has_vertex(v),
            forall|j: int, u: Vertex|
                0 <= j < (s0 + l0).len() && #[trigger] self.weights().contains_key((u, (s0 + l0)[j]))
                    ==> exists|i: int| 0 <= i < j && (s0 + l0)[i] == u,
    {
        lemma_concat_facts(s0, t0);
        lemma_concat_facts(s0, l0);
        assert forall|x: Vertex| #[trigger] s0.contains(x) implies !l0.contains(x) by {
            if l0.contains(x) {
                assert(t0.contains(x));
            }
        }
        lemma_concat_no_dup(s0, l0);
        lemma_concat_facts(s0 + l0, r0);
        assert forall|x: Vertex| #[trigger] (s0 + l0).contains(x) implies !r0.contains(x) by {
            if r0.contains(x) {
                assert(t0.contains(x));
                assert(!s0.contains(x));
            }
        }
        lemma_concat_no_dup(s0 + l0, r0);
        assert forall|v: Vertex| #[trigger] (s0 + l0 + r0).contains(v) <==> self.has_vertex(v) by {
            assert((s0 + t0).contains(v) <==> s0.contains(v) || t0.contains(v));
            assert((s0 + l0).contains(v) <==> s0.contains(v) || l0.contains(v));
            assert((s0 + l0 + r0).contains(v) <==> (s0 + l0).contains(v) || r0.contains(v));
            if t0.contains(v) {
                assert(l0.contains(v) || r0.contains(v));
            }
        }
        let sl = s0 + l0;
        assert forall|j: int, u: Vertex|
            0 <= j < sl.len() && #[trigger] self.weights().contains_key((u, sl[j])) implies exists|
            i: int,
        | 0 <= i < j && sl[i] == u by {
            if j < s0.len() {
                assert(sl[j] == s0[j]);
                let i = choose|i: int| 0 <= i < j && s0[i] == u;
                assert(sl[i] == u);
            } else {
                let v = sl[j];
                assert(v == l0[j - s0.len()]);
                assert(l0.contains(v));
                assert(!self.fed_from(t0, v));
                assert(self.has_vertex(u)) by {
                    assert(self.weights().contains_key((u, v)));
                }
                assert((s0 + t0).contains(u));
                if t0.contains(u) {
                    let b = choose|b: int| 0 <= b < t0.len() && t0[b] == u;
                    assert(self.weights().contains_key((t0[b], v)));
                }
                assert(s0.contains(u));
                let i = choose|i: int| 0 <= i < s0.len() && s0[i] == u;
                assert(sl[i] == u);
            }
        }
    }

    fn has_edge_from(&self, froms: &Vec<Vertex>, v: Vertex) -> (r: bool)
        ensures
            r == self.fed_from(froms@, v),
    {
        let mut b: usize = 0;
        while b < froms.len()
            invariant
                b <= froms@.len(),
                forall|b2: int| 0 <= b2 < b ==> !self.weights().contains_key((froms@[b2], v)),
            decreases froms@.len() - b,
        {
            if self.get_weight(froms[b], v).is_some() {
                return true;
            }
            b = b + 1;
        }
        false
    }

    /// Orders the vertices so that every edge goes forward, taking at each round every
    /// vertex left with no edge in from the vertices left; `None` when a round finds none.
    pub fn topo_sort(&self) -> (r: Option<Path>)
        requires
            self.wf(),
        ensures
            match r {
                Some(order) => self.is_topological(order@),
                None => exists|vs: Set<Vertex>| self.is_stuck(vs),
            },
    {
        let mut sorted: Vec<Vertex> = Vec::new();
        let mut todo = self.vertex_list();
        proof {
            assert(sorted@ + todo@ =~= todo@);
        }
        while todo.len() > 0
            invariant
                (sorted@ + todo@).no_duplicates(),
                forall|v: Vertex| #[trigger] (sorted@ + todo@).contains(v) <==> self.has_vertex(v),
                forall|j: int, u: Vertex|
                    0 <= j < sorted@.len() && #[trigger] self.weights().contains_key((u, sorted@[j]))
                        ==> exists|i: int| 0 <= i < j && sorted@[i] == u,
            decreases todo@.len(),
        {
            proof {
                lemma_concat_facts(sorted@, todo@);
            }
            let mut layer: Vec<Vertex> = Vec::new();
            let mut rest: Vec<Vertex> = Vec::new();
            let mut a: usize = 0;
            while a < todo.len()
                invariant
                    a <= todo@.len(),
                    todo@.no_duplicates(),
                    layer@.len() + rest@.len() == a,
                    layer@.no_duplicates(),
                    rest@.no_duplicates(),
                    forall|x: Vertex|
                        #[trigger] layer@.contains(x) <==> todo@.take(a as int).contains(x)
                            && !self.fed_from(todo@, x),
                    forall|x: Vertex|
                        #[trigger] rest@.contains(x) <==> todo@.take(a as int).contains(x)
                            && self.fed_from(todo@, x),
                decreases todo@.len() - a,
            {
                let v = todo[a];
                proof {
                    lemma_take_next(todo@, a as int);
                    if todo@.take(a as int).contains(v) {
                        let k = choose|k: int| 0 <= k < a && todo@.take(a as int)[k] == v;
                        assert(todo@[k] == v);
                    }
                }
                if self.has_edge_from(&todo, v) {
                    proof {
                        lemma_push_contains(rest@, v);
                        lemma_push_no_dup(rest@, v);
                    }
                    rest.push(v);
                } else {
                    proof {
                        lemma_push_contains(layer@, v);
                        lemma_push_no_dup(layer@, v);
                    }
                    layer.push(v);
                }
                a = a + 1;
            }
            proof {
                assert(todo@.take(a as int) =~= todo@);
            }
            if layer.len() == 0 {
                proof {
                    assert forall|x: Vertex| todo@.contains(x) implies #[trigger] rest@.contains(x) by {
                        assert(!layer@.contains(x));
                    }
                    self.lemma_stuck(todo@, rest@);
                }
                return None;
            }
            let ghost s0 = sorted@;
            let ghost t0 = todo@;
            let ghost l0 = layer@;
            sorted.append(&mut layer);
            todo = rest;
            proof {
                self.lemma_round(s0, t0, l0, todo@);
            }
        }
        proof {
            assert(sorted@ + todo@ =~= sorted@);
            assert forall|i: int, j: int|
                0 <= i < sorted@.len() && 0 <= j < sorted@.len() && #[trigger] self.weights().contains_key(
                    (sorted@[i], sorted@[j]),
                ) implies i < j by {
                let i2 = choose|i2: int| 0 <= i2 < j && sorted@[i2] == sorted@[i];
            }
        }
        Some(sorted)
    }

    /// `p` follows edges of the graph from `from` to `to`.
    pub open spec fn is_path(&self, p: Seq<Vertex>, from: Vertex, to: Vertex) -> bool {
        &&& p.len() >= 1
        &&& p[0] == from
        &&& p.last() == to
        &&& forall|k: int| 0 <= k < p.len() - 1 ==> #[trigger] self.weights().contains_key((p[k], p[k + 1]))
    }

    /// The sum of the weights of the edges along `p`.
    pub open spec fn path_weight(&self, p: Seq<Vertex>) -> nat
        decreases p.len(),
    {
        if p.len() <= 1 {
            0
        } else {
            self.path_weight(p.drop_last()) + self.weights()[(p[p.len() - 2], p.last())] as nat
        }
    }

    /// A path from `from` to `to` whose weight fits in a `Weight`.
    pub open spec fn reachable(&self, from: Vertex, to: Vertex) -> bool {
        exists|q: Seq<Vertex>| self.is_path(q, from, to) && self.path_weight(q) <= usize::MAX
    }

    /// `r` maps each vertex in scope that `source` reaches to the weight of a shortest path
    /// to it and such a path. The scope is `target` when given, else every vertex.
    pub open spec fn shortest_from(
        &self,
        source: Vertex,
        target: Option<Vertex>,
        r: Map<Vertex, (Weight, Path)>,
    ) -> bool {
        &&& forall|v: Vertex|
            #[trigger] r.contains_key(v) <==> (match target {
                Some(t) => v == t,
                None => self.has_vertex(v),
            }) && self.reachable(source, v)
        &&& forall|v: Vertex|
            #[trigger] r.contains_key(v) ==> {
                let (w, p) = r[v];
                &&& self.is_path(p@, source, v)
                &&& self.path_weight(p@) == w
                &&& forall|q: Seq<Vertex>|
                    self.is_path(q, source, v) && self.path_weight(q) <= usize::MAX ==> w
                        <= #[trigger] self.path_weight(q)
            }
    }

    /// Shortest paths from `source`, to `target` alone when it is given: the tentative
    /// weights are relaxed along every edge until none improves.
    pub fn shortest_path(&self, source: Vertex, target: Option<Vertex>) -> (r: HashMap<
        Vertex,
        (Weight, Path),
    >)
        requires
            self.wf(),
        ensures
            self.shortest_from(source, target, r@),
    {
        let es = self.edges();
        let vs = self.vertex_list();
        let mut dist: HashMap<Vertex, Weight> = HashMap::new();
        let mut paths: HashMap<Vertex, Path> = HashMap::new();
        dist.insert(source, 0);
        paths.insert(source, vec![source]);
        proof {
            assert(self.path_weight(seq![source]) == 0);
        }
        loop
            invariant
                self.wf(),
                forall|e: Edge|
                    #[trigger] es@.contains(e) <==> self.weights().contains_key((e.0, e.1))
                        && self.weights()[(e.0, e.1)] == e.2,
                vs@.no_duplicates(),
                forall|v: Vertex| #[trigger] vs@.contains(v) <==> self.has_vertex(v),
                self.tentative(source, dist@, paths@),
            ensures
                self.tentative(source, dist@, paths@),
                forall|q: Seq<Vertex>, v: Vertex|
                    #[trigger] self.is_path(q, source, v) && self.path_weight(q) <= usize::MAX
                        ==> dist@.contains_key(v) && dist@[v] <= self.path_weight(q),
            decreases measure(vs@, dist@),
        {
            let ghost start = dist@;
            let mut changed = false;
            let mut k: usize = 0;
            while k < es.len()
                invariant
                    self.wf(),
                    forall|e: Edge|
                        #[trigger] es@.contains(e) <==> self.weights().contains_key((e.0, e.1))
                            && self.weights()[(e.0, e.1)] == e.2,
                    vs@.no_duplicates(),
                    forall|v: Vertex| #[trigger] vs@.contains(v) <==> self.has_vertex(v),
                    self.tentative(source, dist@, paths@),
                    k <= es@.len(),
                    !changed ==> dist@ == start,
                    changed ==> measure(vs@, dist@) < measure(vs@, start),
                    !changed ==> forall|k2: int| 0 <= k2 < k ==> #[trigger] settled(es@[k2], dist@),
                decreases es@.len() - k,
            {
                let e = es[k];
                let u = e.0;
                let v = e.1;
                let w = e.2;
                proof {
                    assert(es@.contains(e));
                }
                match dist.get(&u) {
                    Some(du) => {
                        match du.checked_add(w) {
                            Some(c) => {
                                let better = match dist.get(&v) {
                                    Some(dv) => c < *dv,
                                    None => true,
                                };
                                if better {
                                    let mut p = paths.get(&u).unwrap().clone();
                                    proof {
                                        assert(p@ =~= paths@[u]@);
                                        assert(self.has_vertex(v)) by {
                                            assert(self.weights().contains_key((u, v)));
                                        }
                                        lemma_measure_drop(vs@, dist@, v, c);
                                        self.lemma_extend_path(p@, source, u, v);
                                    }
                                    p.push(v);
                                    let ghost before = dist@;
                                    dist.insert(v, c);
                                    paths.insert(v, p);
                                    changed = true;
                                    proof {
                                        assert(v != source || before[source] == 0);
                                        assert forall|x: Vertex| #[trigger] dist@.contains_key(x) implies paths@.contains_key(x)
                                            && self.is_path(paths@[x]@, source, x) && self.path_weight(paths@[x]@)
                                            == dist@[x] by {
                                            if x != v {
                                                assert(before.contains_key(x));
                                            }
                                        }
                                    }
                                }
                            },
                            None => {},
                        }
                    },
                    None => {},
                }
                k = k + 1;
            }
            if !changed {
                proof {
                    assert forall|e: Edge| #[trigger] es@.contains(e) implies settled(e, dist@) by {
                        let k2 = choose|k2: int| 0 <= k2 < es@.len() && es@[k2] == e;
                        assert(settled(es@[k2], dist@));
                    }
                    assert forall|q: Seq<Vertex>, v: Vertex|
                        #[trigger] self.is_path(q, source, v) && self.path_weight(q) <= usize::MAX implies dist@.contains_key(v)
                            && dist@[v] <= self.path_weight(q) by {
                        self.lemma_fixpoint_bound(source, dist@, es@, q, v);
                    }
                }
                break;
            }
        }
        let mut r: HashMap<Vertex, (Weight, Path)> = HashMap::new();
        match target {
            Some(t) => {
                match dist.get(&t) {
                    Some(dt) => {
                        let p = paths.get(&t).unwrap().clone();
                        proof {
                            assert(p@ =~= paths@[t]@);
                        }
                        r.insert(t, (*dt, p));
                    },
                    None => {},
                }
                proof {
                    self.lemma_result(source, target, dist@, paths@, r@);
                }
            },
            None => {
                let mut i: usize = 0;
                while i < vs.len()
                    invariant
                        i <= vs@.len(),
                        forall|v: Vertex| #[trigger] vs@.contains(v) <==> self.has_vertex(v),
                        self.tentative(source, dist@, paths@),
                        forall|v: Vertex|
                            #[trigger] r@.contains_key(v) <==> vs@.take(i as int).contains(v)
                                && dist@.contains_key(v),
                        forall|v: Vertex|
                            #[trigger] r@.contains_key(v) ==> r@[v].0 == dist@[v] && r@[v].1@
                                == paths@[v]@,
                    decreases vs@.len() - i,
                {
                    let v = vs[i];
                    proof {
                        lemma_take_next(vs@, i as int);
                    }
                    match dist.get(&v) {
                        Some(dv) => {
                            let p = paths.get(&v).unwrap().clone();
                            proof {
                                assert(p@ =~= paths@[v]@);
                            }
                            r.insert(v, (*dv, p));
                        },
                        None => {},
                    }
                    i = i + 1;
                }
                proof {
                    assert(vs@.take(i as int) =~= vs@);
                    self.lemma_result(source, target, dist@, paths@, r@);
                }
            },
        }
        r
    }

    /// Shortest paths between every pair of vertices: for each vertex, the shortest paths
    /// from it to every vertex it reaches.
    pub fn shortest_paths(&self) -> (r: HashMap<Vertex, HashMap<Vertex, (Weight, Path)>>)
        requires
            self.wf(),
        ensures
            forall|x: Vertex| #[trigger] r@.contains_key(x) <==> self.has_vertex(x),
            forall|x: Vertex| #[trigger] r@.contains_key(x) ==> self.shortest_from(x, None, r@[x]@),
    {
        let vs = self.vertex_list();
        let mut r: HashMap<Vertex, HashMap<Vertex, (Weight, Path)>> = HashMap::new();
        let mut i: usize = 0;
        while i < vs.len()
            invariant
                self.wf(),
                i <= vs@.len(),
                forall|v: Vertex| #[trigger] vs@.contains(v) <==> self.has_vertex(v),
                forall|x: Vertex| #[trigger] r@.contains_key(x) <==> vs@.take(i as int).contains(x),
                forall|x: Vertex| #[trigger] r@.contains_key(x) ==> self.shortest_from(x, None, r@[x]@),
            decreases vs@.len() - i,
        {
            let x = vs[i];
            proof {
                lemma_take_next(vs@, i as int);
            }
            let from_x = self.shortest_path(x, None);
            r.insert(x, from_x);
            i = i + 1;
        }
        assert(vs@.take(i as int) =~= vs@);
        r
    }

    /// Tentative weights and paths: each weight is that of its path, which leads from
    /// `source` to its vertex; `source` itself is at weight zero.
    pub open spec fn tentative(
        &self,
        source: Vertex,
        dist: Map<Vertex, Weight>,
        paths: Map<Vertex, Path>,
    ) -> bool {
        &&& dist.contains_key(source)
        &&& dist[source] == 0
        &&& forall|x: Vertex|
            #[trigger] dist.contains_key(x) ==> paths.contains_key(x) && self.is_path(
                paths[x]@,
                source,
                x,
            ) && self.path_weight(paths[x]@) == dist[x]
    }

    proof fn lemma_result(
        &self,
        source: Vertex,
        target: Option<Vertex>,
        dist: Map<Vertex, Weight>,
        paths: Map<Vertex, Path>,
        r: Map<Vertex, (Weight, Path)>,
    )
        requires
            self.tentative(source, dist, paths),
            forall|q: Seq<Vertex>, v: Vertex|
                #[trigger] self.is_path(q, source, v) && self.path_weight(q) <= usize::MAX
                    ==> dist.contains_key(v) && dist[v] <= self.path_weight(q),
            forall|v: Vertex|
                #[trigger] r.contains_key(v) <==> (match target {
                    Some(t) => v == t,
                    None => self.has_vertex(v),
                }) && dist.contains_key(v),
            forall|v: Vertex|
                #[trigger] r.contains_key(v) ==> r[v].0 == dist[v] && r[v].1@ == paths[v]@,
        ensures
            self.shortest_from(source, target, r),
    {
        assert forall|v: Vertex| #[trigger] dist.contains_key(v) <==> self.reachable(source, v) by {
            if dist.contains_key(v) {
                assert(self.is_path(paths[v]@, source, v));
            }
            if self.reachable(source, v) {
                let q = choose|q: Seq<Vertex>|
                    self.is_path(q, source, v) && self.path_weight(q) <= usize::MAX;
                assert(dist.contains_key(v));
            }
        }
        assert forall|v: Vertex| #[trigger] r.contains_key(v) implies {
            let (w, p) = r[v];
            &&& self.is_path(p@, source, v)
            &&& self.path_weight(p@) == w
            &&& forall|q: Seq<Vertex>|
                self.is_path(q, source, v) && self.path_weight(q) <= usize::MAX ==> w
                    <= #[trigger] self.path_weight(q)
        } by {
            assert forall|q: Seq<Vertex>|
                self.is_path(q, source, v) && self.path_weight(q) <= usize::MAX implies r[v].0
                <= #[trigger] self.path_weight(q) by {
                assert(dist.contains_key(v) && dist[v] <= self.path_weight(q));
            }
        }
    }

    proof fn lemma_extend_path(&self, p: Seq<Vertex>, source: Vertex, u: Vertex, v: Vertex)
        requires
            self.is_path(p, source, u),
            self.weights().contains_key((u, v)),
        ensures
            self.is_path(p.push(v), source, v),
            self.path_weight(p.push(v)) == self.path_weight(p) + self.weights()[(u, v)],
    {
        let q = p.push(v);
        assert(q.drop_last() =~= p);
        assert forall|k: int| 0 <= k < q.len() - 1 implies #[trigger] self.weights().contains_key(
            (q[k], q[k + 1]),
        ) by {
            if k < p.len() - 1 {
                assert(q[k] == p[k] && q[k + 1] == p[k + 1]);
                assert(self.weights().contains_key((p[k], p[k + 1])));
            }
        }
    }

    proof fn lemma_fixpoint_bound(
        &self,
        source: Vertex,
        dist: Map<Vertex, Weight>,
        es: Seq<Edge>,
        q: Seq<Vertex>,
        v: Vertex,
    )
        requires
            dist.contains_key(source),
            dist[source] == 0,
            forall|e: Edge|
                #[trigger] es.contains(e) <==> self.weights().contains_key((e.0, e.1))
                    && self.weights()[(e.0, e.1)] == e.2,
            forall|e: Edge| #[trigger] es.contains(e) ==> settled(e, dist),
            self.is_path(q, source, v),
            self.path_weight(q) <= usize::MAX,
        ensures
            dist.contains_key(v),
            dist[v] <= self.path_weight(q),
        decreases q.len(),
    {
        if q.len() > 1 {
            let front = q.drop_last();
            let u = front.last();
            assert(u == q[q.len() - 2]);
            assert forall|k: int| 0 <= k < front.len() - 1 implies #[trigger] self.weights().contains_key(
                (front[k], front[k + 1]),
            ) by {
                assert(self.weights().contains_key((q[k], q[k + 1])));
            }
            self.lemma_fixpoint_bound(source, dist, es, front, u);
            let k = q.len() - 2;
            assert(self.weights().contains_key((q[k], q[k + 1])));
            assert(q[k + 1] == v);
            let w = self.weights()[(u, v)];
            assert(es.contains((u, v, w)));
            assert(settled((u, v, w), dist));
        }
    }

    /// The targets of the edges out of `source`.
    pub fn vertices_outgoing_from(&self, source: Vertex) -> (r: Vertices)
        ensures
            forall|t: Vertex| #[trigger] r@.contains(t) <==> self.weights().contains_key((source, t)),
    {
        let mut r: HashSet<Vertex> = HashSet::new();
        match self.data.get(&source) {
            Some(out) => {
                let zs = keys_of(out);
                let mut j: usize = 0;
                while j < zs.len()
                    invariant
                        j <= zs@.len(),
                        forall|t: Vertex| #[trigger] r@.contains(t) <==> zs@.take(j as int).contains(t),
                    decreases zs@.len() - j,
                {
                    proof {
                        lemma_take_next(zs@, j as int);
                    }
                    r.insert(zs[j]);
                    j = j + 1;
                }
                assert(zs@.take(j as int) =~= zs@);
            },
            None => {},
        }
        r
    }

    /// Every edge, as source, target and weight.
    pub fn edges(&self) -> (r: Edges)
        ensures
            forall|e: Edge|
                #[trigger] r@.contains(e) <==> self.weights().contains_key((e.0, e.1))
                    && self.weights()[(e.0, e.1)] == e.2,
    {
        let mut r: Vec<Edge> = Vec::new();
        let xs = keys_of(&self.data);
        let mut i: usize = 0;
        while i < xs.len()
            invariant
                i <= xs@.len(),
                forall|k: Vertex| xs@.contains(k) <==> self.data@.contains_key(k),
                forall|e: Edge|
                    #[trigger] r@.contains(e) <==> xs@.take(i as int).contains(e.0)
                        && self.weights().contains_key((e.0, e.1)) && self.weights()[(e.0, e.1)]
                        == e.2,
            decreases xs@.len() - i,
        {
            let x = xs[i];
            proof {
                assert(xs@.contains(x));
            }
            let out = self.data.get(&x).unwrap();
            let zs = keys_of(out);
            let mut j: usize = 0;
            while j < zs.len()
                invariant
                    i < xs@.len(),
                    x == xs@[i as int],
                    *out == self.data@[x],
                    self.data@.contains_key(x),
                    j <= zs@.len(),
                    forall|k: Vertex| zs@.contains(k) <==> out@.contains_key(k),
                    forall|e: Edge|
                        #[trigger] r@.contains(e) <==> (xs@.take(i as int).contains(e.0) || (e.0 == x
                            && zs@.take(j as int).contains(e.1))) && self.weights().contains_key(
                            (e.0, e.1),
                        ) && self.weights()[(e.0, e.1)] == e.2,
                decreases zs@.len() - j,
            {
                let z = zs[j];
                proof {
                    assert(zs@.contains(z));
                    lemma_take_next(zs@, j as int);
                    lemma_push_contains(r@, (x, z, out@[z]));
                }
                let w = *out.get(&z).unwrap();
                r.push((x, z, w));
                j = j + 1;
            }
            proof {
                assert(zs@.take(j as int) =~= zs@);
                lemma_take_next(xs@, i as int);
            }
            i = i + 1;
        }
        assert(xs@.take(i as int) =~= xs@);
        r
    }

    /// Every vertex: each source and each target of an edge.
    pub fn vertices(&self) -> (r: Vertices)
        requires
            self.wf(),
        ensures
            forall|v: Vertex| #[trigger] r@.contains(v) <==> self.has_vertex(v),
    {
        let vs = self.vertex_list();
        let mut r: HashSet<Vertex> = HashSet::new();
        let mut i: usize = 0;
        while i < vs.len()
            invariant
                i <= vs@.len(),
                forall|v: Vertex| #[trigger] r@.contains(v) <==> vs@.take(i as int).contains(v),
            decreases vs@.len() - i,
        {
            proof {
                lemma_take_next(vs@, i as int);
            }
            r.insert(vs[i]);
            i = i + 1;
        }
        assert(vs@.take(i as int) =~= vs@);
        r
    }

    /// Every vertex once, sources in the order the index gives them, each followed by its
    /// targets not seen yet.
    fn vertex_list(&self) -> (r: Vec<Vertex>)
        requires
            self.wf(),
        ensures
            r@.no_duplicates(),
            forall|v: Vertex| #[trigger] r@.contains(v) <==> self.has_vertex(v),
    {
        let mut r: Vec<Vertex> = Vec::new();
        let mut seen: HashSet<Vertex> = HashSet::new();
        let xs = keys_of(&self.data);
        let mut i: usize = 0;
        while i < xs.len()
            invariant
                i <= xs@.len(),
                forall|k: Vertex| xs@.contains(k) <==> self.data@.contains_key(k),
                r@.no_duplicates(),
                forall|v: Vertex| #[trigger] r@.contains(v) <==> seen@.contains(v),
                forall|v: Vertex|
                    #[trigger] r@.contains(v) <==> exists|s: Vertex|
                        #[trigger] xs@.take(i as int).contains(s) && (s == v
                            || self.weights().contains_key((s, v))),
            decreases xs@.len() - i,
        {
            let x = xs[i];
            proof {
                assert(xs@.contains(x));
                lemma_take_next(xs@, i as int);
            }
            if !seen.contains(&x) {
                proof {
                    lemma_push_contains(r@, x);
                    lemma_push_no_dup(r@, x);
                }
                seen.insert(x);
                r.push(x);
            }
            let out = self.data.get(&x).unwrap();
            let zs = keys_of(out);
            let mut j: usize = 0;
            while j < zs.len()
                invariant
                    i < xs@.len(),
                    x == xs@[i as int],
                    *out == self.data@[x],
                    self.data@.contains_key(x),
                    forall|t: Vertex|
                        #[trigger] xs@.take(i + 1).contains(t) <==> xs@.take(i as int).contains(t)
                            || t == x,
                    j <= zs@.len(),
                    forall|k: Vertex| zs@.contains(k) <==> out@.contains_key(k),
                    r@.no_duplicates(),
                    forall|v: Vertex| #[trigger] r@.contains(v) <==> seen@.contains(v),
                    forall|v: Vertex|
                        #[trigger] r@.contains(v) <==> (exists|s: Vertex|
                            #[trigger] xs@.take(i as int).contains(s) && (s == v
                                || self.weights().contains_key((s, v)))) || v == x
                            || zs@.take(j as int).contains(v),
                decreases zs@.len() - j,
            {
                let z = zs[j];
                proof {
                    lemma_take_next(zs@, j as int);
                }
                if !seen.contains(&z) {
                    proof {
                        lemma_push_contains(r@, z);
                        lemma_push_no_dup(r@, z);
                    }
                    seen.insert(z);
                    r.push(z);
                }
                j = j + 1;
            }
            proof {
                assert(zs@.take(j as int) =~= zs@);
                assert forall|v: Vertex| #[trigger] r@.contains(v) implies exists|s: Vertex|
                    #[trigger] xs@.take(i + 1).contains(s) && (s == v || self.weights().contains_key(
                        (s, v),
                    )) by {
                    if v == x || zs@.contains(v) {
                        assert(xs@.take(i + 1).contains(x));
                    } else {
                        let s = choose|s: Vertex|
                            #[trigger] xs@.take(i as int).contains(s) && (s == v
                                || self.weights().contains_key((s, v)));
                        assert(xs@.take(i + 1).contains(s));
                    }
                }
                assert forall|v: Vertex|
                    (exists|s: Vertex|
                        #[trigger] xs@.take(i + 1).contains(s) && (s == v
                            || self.weights().contains_key((s, v)))) implies #[trigger] r@.contains(
                    v,
                ) by {
                    let s = choose|s: Vertex|
                        #[trigger] xs@.take(i + 1).contains(s) && (s == v
                            || self.weights().contains_key((s, v)));
                    if s != x {
                        assert(xs@.take(i as int).contains(s));
                    }
                }
            }
            i = i + 1;
        }
        proof {
            assert(xs@.take(i as int) =~= xs@);
            assert forall|v: Vertex| #[trigger] r@.contains(v) <==> self.has_vertex(v) by {
                if r@.contains(v) {
                    let s = choose|s: Vertex|
                        #[trigger] xs@.take(i as int).contains(s) && (s == v
                            || self.weights().contains_key((s, v)));
                    if s == v {
                        let t = choose|t: Vertex| self.data@[s]@.contains_key(t);
                        assert(self.weights().contains_key((s, t)));
                    } else {
                        assert(self.weights().contains_key((s, v)));
                    }
                }
                if self.has_vertex(v) {
                    let e = choose|e: (Vertex, Vertex)| #[trigger]
                        self.weights().contains_key(e) && (e.0 == v || e.1 == v);
                    assert(xs@.contains(e.0));
                }
            }
        }
        r
    }
}

/// The keys of `m`, each once.
fn keys_of<V>(m: &HashMap<Vertex, V>) -> (r: Vec<Vertex>)
    ensures
        forall|k: Vertex| r@.contains(k) <==> m@.contains_key(k),
{
    let mut r: Vec<Vertex> = Vec::new();
    for k in it: m.keys()
        invariant
            it.seq().unref().to_set() == m@.dom(),
            0 <= it.index() <= it.seq().len(),
            r@ =~= it.seq().take(it.index()).unref(),
            it.index() == it.seq().len() ==> forall|k: Vertex|
                r@.contains(k) <==> m@.contains_key(k),
    {
        let ghost i = it.index();
        r.push(*k);
        proof {
            assert(*k == *it.seq()[i]);
            assert(it.seq().take(i + 1).unref() =~= it.seq().take(i).unref().push(*k));
            assert(i + 1 == it.seq().len() ==> it.seq().take(i + 1) =~= it.seq());
            assert(i + 1 == it.seq().len() ==> forall|k: Vertex|
                r@.contains(k) <==> it.seq().unref().to_set().contains(k));
        }
    }
    r
}

proof fn lemma_push_contains<A>(s: Seq<A>, x: A)
    ensures
        forall|t: A| #[trigger] s.push(x).contains(t) <==> s.contains(t) || t == x,
{
    assert forall|t: A| #[trigger] s.push(x).contains(t) <==> s.contains(t) || t == x by {
        if s.push(x).contains(t) {
            let k = choose|k: int| 0 <= k < s.push(x).len() && s.push(x)[k] == t;
            if k < s.len() {
                assert(s[k] == t);
            }
        }
        if s.contains(t) {
            let k = choose|k: int| 0 <= k < s.len() && s[k] == t;
            assert(s.push(x)[k] == t);
        }
        if t == x {
            assert(s.push(x)[s.len() as int] == t);
        }
    }
}

proof fn lemma_concat_facts<A>(a: Seq<A>, b: Seq<A>)
    ensures
        forall|x: A| #[trigger] (a + b).contains(x) <==> a.contains(x) || b.contains(x),
        (a + b).no_duplicates() ==> a.no_duplicates() && b.no_duplicates() && forall|x: A|
            #[trigger] a.contains(x) ==> !b.contains(x),
{
    assert forall|x: A| #[trigger] (a + b).contains(x) <==> a.contains(x) || b.contains(x) by {
        if (a + b).contains(x) {
            let k = choose|k: int| 0 <= k < (a + b).len() && (a + b)[k] == x;
            if k >= a.len() {
                assert(b[k - a.len()] == x);
            }
        }
        if a.contains(x) {
            let k = choose|k: int| 0 <= k < a.len() && a[k] == x;
            assert((a + b)[k] == x);
        }
        if b.contains(x) {
            let k = choose|k: int| 0 <= k < b.len() && b[k] == x;
            assert((a + b)[k + a.len()] == x);
        }
    }
    if (a + b).no_duplicates() {
        assert forall|i: int, j: int| 0 <= i < a.len() && 0 <= j < a.len() && i != j implies a[i]
            != a[j] by {
            assert((a + b)[i] == a[i] && (a + b)[j] == a[j]);
        }
        assert forall|i: int, j: int| 0 <= i < b.len() && 0 <= j < b.len() && i != j implies b[i]
            != b[j] by {
            assert((a + b)[i + a.len()] == b[i] && (a + b)[j + a.len()] == b[j]);
        }
        assert forall|x: A| #[trigger] a.contains(x) implies !b.contains(x) by {
            if b.contains(x) {
                let i = choose|i: int| 0 <= i < a.len() && a[i] == x;
                let j = choose|j: int| 0 <= j < b.len() && b[j] == x;
                assert((a + b)[i] == x && (a + b)[j + a.len()] == x);
            }
        }
    }
}

proof fn lemma_concat_no_dup<A>(a: Seq<A>, b: Seq<A>)
    requires
        a.no_duplicates(),
        b.no_duplicates(),
        forall|x: A| #[trigger] a.contains(x) ==> !b.contains(x),
    ensures
        (a + b).no_duplicates(),
{
    assert forall|i: int, j: int| 0 <= i < (a + b).len() && 0 <= j < (a + b).len() && i != j implies (a
        + b)[i] != (a + b)[j] by {
        if i < a.len() && j >= a.len() {
            assert(a.contains(a[i]));
            assert(b[j - a.len()] == (a + b)[j]);
        } else if j < a.len() && i >= a.len() {
            assert(a.contains(a[j]));
            assert(b[i - a.len()] == (a + b)[i]);
        }
    }
}

proof fn lemma_push_no_dup<A>(s: Seq<A>, x: A)
    requires
        s.no_duplicates(),
        !s.contains(x),
    ensures
        s.push(x).no_duplicates(),
{
    assert forall|a: int, b: int| 0 <= a < s.len() + 1 && 0 <= b < s.len() + 1 && a != b implies s.push(
        x,
    )[a] != s.push(x)[b] by {
        if a == s.len() {
            assert(s.contains(s[b]));
        } else if b == s.len() {
            assert(s.contains(s[a]));
        }
    }
}

proof fn lemma_take_next<A>(s: Seq<A>, j: int)
    requires
        0 <= j < s.len(),
    ensures
        s.take(j + 1) == s.take(j).push(s[j]),
        forall|t: A| #[trigger] s.take(j + 1).contains(t) <==> s.take(j).contains(t) || t == s[j],
{
    assert(s.take(j + 1) =~= s.take(j).push(s[j]));
    lemma_push_contains(s.take(j), s[j]);
}

impl Default for Graph {
    fn default() -> (g: Self)
        ensures
            g.wf(),
            g.weights() == Map::<(Vertex, Vertex), Weight>::empty(),
    {
        Self::new()
    }
}

/// No relaxation along `e` would improve `dist`.
pub open spec fn settled(e: Edge, dist: Map<Vertex, Weight>) -> bool {
    dist.contains_key(e.0) && dist[e.0] + e.2 <= usize::MAX ==> dist.contains_key(e.1) && dist[e.1]
        <= dist[e.0] + e.2
}

spec fn slot(dist: Map<Vertex, Weight>, v: Vertex) -> nat {
    if dist.contains_key(v) {
        dist[v] as nat
    } else {
        usize::MAX as nat + 1
    }
}

spec fn measure(vs: Seq<Vertex>, dist: Map<Vertex, Weight>) -> nat
    decreases vs.len(),
{
    if vs.len() == 0 {
        0
    } else {
        measure(vs.drop_last(), dist) + slot(dist, vs.last())
    }
}

proof fn lemma_measure_same(vs: Seq<Vertex>, dist: Map<Vertex, Weight>, v: Vertex, c: Weight)
    requires
        !vs.contains(v),
    ensures
        measure(vs, dist.insert(v, c)) == measure(vs, dist),
    decreases vs.len(),
{
    if vs.len() > 0 {
        let front = vs.drop_last();
        assert(!front.contains(v)) by {
            if front.contains(v) {
                let k = choose|k: int| 0 <= k < front.len() && front[k] == v;
                assert(vs[k] == v);
            }
        }
        assert(vs.last() != v) by {
            assert(vs[vs.len() - 1] == vs.last());
        }
        lemma_measure_same(front, dist, v, c);
    }
}

proof fn lemma_measure_drop(vs: Seq<Vertex>, dist: Map<Vertex, Weight>, v: Vertex, c: Weight)
    requires
        vs.no_duplicates(),
        vs.contains(v),
        !dist.contains_key(v) || c < dist[v],
    ensures
        measure(vs, dist.insert(v, c)) < measure(vs, dist),
    decreases vs.len(),
{
    let front = vs.drop_last();
    let last = vs.last();
    assert(front.no_duplicates()) by {
        assert forall|a: int, b: int| 0 <= a < front.len() && 0 <= b < front.len() && a != b implies front[a]
            != front[b] by {
            assert(front[a] == vs[a] && front[b] == vs[b]);
        }
    }
    if last == v {
        assert(!front.contains(v)) by {
            if front.contains(v) {
                let k = choose|k: int| 0 <= k < front.len() && front[k] == v;
                assert(vs[k] == vs[vs.len() - 1]);
            }
        }
        lemma_measure_same(front, dist, v, c);
    } else {
        let k = choose|k: int| 0 <= k < vs.len() && vs[k] == v;
        assert(k != vs.len() - 1);
        assert(front[k] == v);
        lemma_measure_drop(front, dist, v, c);
    }
}

} // verus!
