use vstd::prelude::*;
use crate::graph::{
    Graph, adj_wf, has_edge, is_walk, reachable, lemma_bounded_ids_len, lemma_closed_holds_reachable,
    lemma_edge_reachable, lemma_reachable_step, lemma_invalid_source_reaches_nothing, contains_id,
};

verus! {

/// `s` is in ascending order.
pub open spec fn sorted(s: Seq<usize>) -> bool {
    forall|a: int, b: int| 0 <= a < b < s.len() ==> s[a] <= s[b]
}

/// `q` is a walk from `source` to `v` that does not come back to a node it already left (but
/// for `v == source`, closing a cycle), and `p` lists its nodes in ascending order.
pub open spec fn walk_listed(adj: Seq<Seq<usize>>, source: usize, v: usize, p: Seq<usize>, q: Seq<usize>) -> bool {
    &&& is_walk(adj, q)
    &&& q[0] == source
    &&& q.last() == v
    &&& q.drop_first().no_duplicates()
    &&& p.to_multiset() == q.to_multiset()
    &&& sorted(p)
}

/// `p` lists, in ascending order, the nodes of a walk from `source` to `v`.
pub open spec fn sorted_walk_nodes(adj: Seq<Seq<usize>>, source: usize, v: usize, p: Seq<usize>) -> bool {
    exists|q: Seq<usize>| #[trigger] walk_listed(adj, source, v, p, q)
}

/// No walk from `source` to `v` is shorter than `q`.
pub open spec fn is_shortest(adj: Seq<Seq<usize>>, source: usize, v: usize, q: Seq<usize>) -> bool {
    forall|q2: Seq<usize>| #[trigger] is_walk(adj, q2) && q2[0] == source && q2.last() == v ==> q.len() <= q2.len()
}

/// `p` lists, in ascending order, the nodes of a shortest walk from `source` to `v`.
pub open spec fn sorted_shortest_walk_nodes(adj: Seq<Seq<usize>>, source: usize, v: usize, p: Seq<usize>) -> bool {
    exists|q: Seq<usize>| #[trigger] walk_listed(adj, source, v, p, q) && is_shortest(adj, source, v, q)
}

/// `depth[i]` is the number of edges on the discovery chain of `marked[i]`.
pub open spec fn depth_ok(source: usize, marked: Seq<usize>, edge_to: Seq<usize>, depth: Seq<nat>) -> bool {
    &&& depth.len() == marked.len()
    &&& forall|i: int|
        0 <= i < marked.len() ==> (#[trigger] edge_to[i] == source ==> depth[i] == 1) && (edge_to[i]
            != source ==> exists|j: int| 0 <= j < i && marked[j] == edge_to[i] && depth[i] == depth[j] + 1)
}

/// Depths never decrease along the discovery order.
pub open spec fn depth_monotone(depth: Seq<nat>) -> bool {
    forall|a: int, b: int| 0 <= a < b < depth.len() ==> #[trigger] depth[a] <= #[trigger] depth[b]
}

/// Every successor of `marked[j]` is marked at depth at most one more.
pub open spec fn succ_shallow(adj: Seq<Seq<usize>>, marked: Seq<usize>, depth: Seq<nat>, x: usize, dx: nat) -> bool {
    forall|w: usize|
        #[trigger] has_edge(adj, x, w) ==> exists|k: int| 0 <= k < marked.len() && marked[k] == w && depth[k] <= dx + 1
}

/// The result of a traversal from `source`: the nodes visited in discovery order (`source`
/// only when a cycle leads back to it) and, for each, the node it was discovered from.
pub struct GraphSearch {
    source: usize,
    marked: Vec<usize>,
    edge_to: Option<Vec<usize>>,
    graph: Ghost<Seq<Seq<usize>>>,
    depth: Ghost<Seq<nat>>,
}

/// The invariant of a traversal in progress: `marked` holds distinct valid ids, each reachable
/// from `source` and discovered from `source` or from an earlier entry along an edge.
pub open spec fn partial_search(
    adj: Seq<Seq<usize>>,
    source: usize,
    marked: Seq<usize>,
    edge_to: Seq<usize>,
) -> bool {
    &&& source < adj.len()
    &&& marked.len() == edge_to.len()
    &&& marked.no_duplicates()
    &&& forall|i: int| 0 <= i < marked.len() ==> (#[trigger] marked[i]) < adj.len()
    &&& forall|i: int| 0 <= i < marked.len() ==> reachable(adj, source, #[trigger] marked[i])
    &&& forall|i: int|
        0 <= i < marked.len() ==> has_edge(adj, (#[trigger] edge_to[i]), marked[i])
    &&& forall|i: int|
        0 <= i < marked.len() ==> (#[trigger] edge_to[i] == source || exists|j: int|
            0 <= j < i && marked[j] == edge_to[i])
}

/// Each node of `q` after the first was discovered from the node before it.
pub open spec fn follows_predecessors(marked: Seq<usize>, edge_to: Seq<usize>, q: Seq<usize>) -> bool {
    forall|k: int|
        #![trigger q[k]]
        0 <= k < q.len() - 1 ==> exists|i: int| 0 <= i < marked.len() && #[trigger] marked[i] == q[k + 1] && edge_to[i] == q[k]
}

/// Every successor of `v` is marked.
pub open spec fn succ_marked(adj: Seq<Seq<usize>>, v: usize, marked: Seq<usize>) -> bool {
    forall|w: usize| #[trigger] has_edge(adj, v, w) ==> marked.contains(w)
}

impl GraphSearch {
    pub closed spec fn spec_source(&self) -> usize {
        self.source
    }

    pub closed spec fn spec_marked(&self) -> Seq<usize> {
        self.marked@
    }

    pub closed spec fn spec_graph(&self) -> Seq<Seq<usize>> {
        self.graph@
    }

    /// The depths of the marked nodes are recorded: each is the length of its discovery chain.
    pub closed spec fn depths_ok(&self) -> bool {
        match self.edge_to {
            Some(e) => depth_ok(self.source, self.marked@, e@, self.depth@),
            None => false,
        }
    }

    /// The length of the discovery chain of `v`.
    pub closed spec fn spec_depth(&self, v: usize) -> nat {
        self.depth@[choose|k: int| 0 <= k < self.marked@.len() && self.marked@[k] == v]
    }

    /// For each marked node, in order, the node it was discovered from.
    pub closed spec fn spec_edge_to(&self) -> Seq<usize> {
        match self.edge_to {
            Some(e) => e@,
            None => Seq::empty(),
        }
    }

    /// For each marked node, in order, the number of edges on its discovery chain.
    pub closed spec fn spec_depths(&self) -> Seq<nat> {
        self.depth@
    }

    /// The search started from a node of the graph.
    pub closed spec fn spec_valid(&self) -> bool {
        self.edge_to is Some
    }

    pub closed spec fn wf(&self) -> bool {
        match self.edge_to {
            Some(e) => partial_search(self.graph@, self.source, self.marked@, e@),
            None => self.marked@.len() == 0,
        }
    }

    /// The nodes reachable from `source` by one edge or more, or an invalid, empty search when
    /// `source` is not a node.
    pub open spec fn searched(&self, adj: Seq<Seq<usize>>, source: usize) -> bool {
        &&& self.wf()
        &&& self.spec_graph() == adj
        &&& self.spec_source() == source
        &&& self.spec_valid() == (source < adj.len())
        &&& self.spec_marked().no_duplicates()
        &&& forall|b: usize| #[trigger] self.spec_marked().contains(b) <==> reachable(adj, source, b)
        &&& source < adj.len() ==> partial_search(adj, source, self.spec_marked(), self.spec_edge_to())
    }

    /// Marks `w`, found along the edge from `v`.
    fn discover(
        source: usize,
        v: usize,
        w: usize,
        marked: &mut Vec<usize>,
        edge_to: &mut Vec<usize>,
        adj: Ghost<Seq<Seq<usize>>>,
    )
        requires
            adj_wf(adj@),
            partial_search(adj@, source, old(marked)@, old(edge_to)@),
            v == source || old(marked)@.contains(v),
            has_edge(adj@, v, w),
            !old(marked)@.contains(w),
        ensures
            partial_search(adj@, source, final(marked)@, final(edge_to)@),
            final(marked)@ == old(marked)@.push(w),
            final(edge_to)@ == old(edge_to)@.push(v),
    {
        let ghost adj = adj@;
        let ghost mb = marked@;
        let ghost eb = edge_to@;
        proof {
            if v == source {
                lemma_edge_reachable(adj, source, w);
            } else {
                let j = choose|j: int| 0 <= j < mb.len() && mb[j] == v;
                assert(reachable(adj, source, mb[j]));
                lemma_reachable_step(adj, source, v, w);
            }
            assert(adj[v as int].contains(w));
        }
        marked.push(w);
        edge_to.push(v);
        proof {
            let m = marked@;
            let e = edge_to@;
            assert forall|a: int, b: int| 0 <= a < b < m.len() implies m[a] != m[b] by {
                if b == m.len() - 1 {
                    assert(mb[a] == m[a]);
                    assert(mb.contains(m[a]));
                }
            }
            assert forall|k: int| 0 <= k < m.len() implies (#[trigger] e[k] == source || exists|j: int|
                0 <= j < k && m[j] == e[k]) by {
                if k < mb.len() {
                    assert(e[k] == eb[k]);
                    if eb[k] != source {
                        let j = choose|j: int| 0 <= j < k && mb[j] == eb[k];
                        assert(m[j] == mb[j]);
                    }
                } else if v != source {
                    let j = choose|j: int| 0 <= j < mb.len() && mb[j] == v;
                    assert(m[j] == mb[j]);
                }
            }
            assert forall|k: int| 0 <= k < m.len() implies reachable(adj, source, #[trigger] m[k]) by {
                if k < mb.len() {
                    assert(m[k] == mb[k]);
                }
            }
            assert forall|k: int| 0 <= k < m.len() implies has_edge(adj, (#[trigger] e[k]), m[k]) by {
                if k < mb.len() {
                    assert(m[k] == mb[k] && e[k] == eb[k]);
                }
            }
            assert forall|k: int| 0 <= k < m.len() implies (#[trigger] m[k]) < adj.len() by {
                if k < mb.len() {
                    assert(m[k] == mb[k]);
                }
            }
        }
    }

    /// Marks each unmarked successor of `v`, recording `v` as where it was found. Stops early
    /// once `target` is marked.
    fn scan<T>(
        g: &Graph<T>,
        source: usize,
        v: usize,
        marked: &mut Vec<usize>,
        edge_to: &mut Vec<usize>,
        target: Option<usize>,
    ) -> (found: bool)
        requires
            g@.wf(),
            partial_search(g@.adj, source, old(marked)@, old(edge_to)@),
            v == source || old(marked)@.contains(v),
        ensures
            partial_search(g@.adj, source, final(marked)@, final(edge_to)@),
            final(marked)@.len() >= old(marked)@.len(),
            final(marked)@.take(old(marked)@.len() as int) == old(marked)@,
            final(edge_to)@.take(old(marked)@.len() as int) == old(edge_to)@,
            forall|i: int| old(marked)@.len() <= i < final(marked)@.len() ==> #[trigger] final(edge_to)@[i] == v,
            found == (target is Some && final(marked)@.contains(target->0)),
            !found ==> succ_marked(g@.adj, v, final(marked)@),
    {
        let ghost adj = g@.adj;
        let ghost m0 = marked@;
        let ghost e0 = edge_to@;
        let succ = g.successors(v);
        proof {
            if v != source {
                let k = choose|k: int| 0 <= k < m0.len() && m0[k] == v;
                assert(reachable(adj, source, m0[k]));
            }
        }
        let mut found = match target {
            Some(t) => contains_id(marked, t),
            None => false,
        };
        if found {
            return true;
        }
        let mut i: usize = 0;
        while i < succ.len()
            invariant
                0 <= i <= succ.len(),
                succ@ == adj[v as int],
                g@.wf(),
                adj == g@.adj,
                v < adj.len(),
                v == source || reachable(adj, source, v),
                v == source || m0.contains(v),
                m0 == old(marked)@,
                e0 == old(edge_to)@,
                partial_search(adj, source, marked@, edge_to@),
                marked@.len() >= m0.len(),
                marked@.take(m0.len() as int) == m0,
                edge_to@.take(m0.len() as int) == e0,
                forall|k: int| m0.len() <= k < marked@.len() ==> #[trigger] edge_to@[k] == v,
                forall|k: int| 0 <= k < i ==> marked@.contains(#[trigger] succ@[k]),
                !(target is Some && marked@.contains(target->0)),
            decreases succ.len() - i,
        {
            let w = succ[i];
            assert(adj[v as int].contains(w));
            if !contains_id(marked, w) {
                let ghost mb = marked@;
                let ghost eb = edge_to@;
                assert(has_edge(adj, v, w));
                proof {
                    if v != source {
                        let j = choose|j: int| 0 <= j < m0.len() && m0[j] == v;
                        assert(mb.take(m0.len() as int)[j] == mb[j]);
                    }
                }
                Self::discover(source, v, w, marked, edge_to, Ghost(adj));
                proof {
                    let m = marked@;
                    let e = edge_to@;
                    assert(m.take(m0.len() as int) =~= m0) by {
                        assert(mb.take(m0.len() as int) == m0);
                    }
                    assert(e.take(m0.len() as int) =~= e0) by {
                        assert(eb.take(m0.len() as int) == e0);
                    }
                    assert forall|k: int| 0 <= k < i + 1 implies m.contains(#[trigger] succ@[k]) by {
                        if k < i {
                            assert(mb.contains(succ@[k]));
                            let j = choose|j: int| 0 <= j < mb.len() && mb[j] == succ@[k];
                            assert(m[j] == mb[j]);
                        } else {
                            assert(m[m.len() - 1] == w);
                        }
                    }
                }
                match target {
                    Some(t) => {
                        if w == t {
                            assert(marked@[marked@.len() - 1] == w);
                            return true;
                        }
                        proof {
                            let m = marked@;
                            if m.contains(t) {
                                let j = choose|j: int| 0 <= j < m.len() && m[j] == t;
                                assert(mb[j] == m[j]);
                            }
                        }
                    },
                    None => {},
                }
            }
            i = i + 1;
        }
        proof {
            assert forall|w: usize| #[trigger] has_edge(adj, v, w) implies marked@.contains(w) by {
                let k = choose|k: int| 0 <= k < succ@.len() && succ@[k] == w;
                assert(marked@.contains(succ@[k]));
            }
        }
        false
    }

    /// Breadth-first traversal from `source`, stopping early once `target` is discovered.
    #[verifier::spinoff_prover]
    #[verifier::rlimit(60)]
    fn run_bfs<T>(g: &Graph<T>, source: usize, target: Option<usize>) -> (r: GraphSearch)
        requires
            g@.wf(),
        ensures
            r.wf(),
            r.spec_graph() == g@.adj,
            r.spec_source() == source,
            r.spec_valid() == (source < g@.size()),
            r.spec_marked().no_duplicates(),
            source < g@.size() ==> r.depths_ok() && depth_monotone(r.spec_depths()),
            forall|b: usize| #[trigger] r.spec_marked().contains(b) ==> reachable(g@.adj, source, b),
            (target is None || !r.spec_marked().contains(target->0)) ==> forall|b: usize|
                reachable(g@.adj, source, b) ==> #[trigger] r.spec_marked().contains(b),
            target is Some && r.spec_marked().contains(target->0) ==> forall|q: Seq<usize>|
                #[trigger] is_walk(g@.adj, q) && q[0] == source && q.last() == target->0 ==> r.spec_depth(target->0) + 1
                    <= q.len(),
    {
        let ghost adj = g@.adj;
        if source >= g.size() {
            proof {
                lemma_invalid_source_reaches_nothing(adj, source);
            }
            return GraphSearch { source, marked: Vec::new(), edge_to: None, graph: Ghost(adj), depth: Ghost(Seq::empty()) };
        }
        let mut marked: Vec<usize> = Vec::new();
        let mut edge_to: Vec<usize> = Vec::new();
        let mut found = Self::scan(g, source, source, &mut marked, &mut edge_to, target);
        let ghost mut depth: Seq<nat> = Seq::new(marked@.len(), |i: int| 1nat);
        proof {
            if !found {
                assert forall|w: usize| #[trigger] has_edge(adj, source, w) implies exists|k: int|
                    0 <= k < marked@.len() && marked@[k] == w && depth[k] == 1 by {
                    assert(succ_marked(adj, source, marked@));
                    assert(marked@.contains(w));
                    let k = choose|k: int| 0 <= k < marked@.len() && marked@[k] == w;
                    assert(depth[k] == 1);
                }
            }
            if found {
                let t = target->0;
                let k = choose|k: int| 0 <= k < marked@.len() && marked@[k] == t;
                assert forall|q: Seq<usize>| #[trigger] is_walk(adj, q) && q[0] == source && q.last() == t implies depth[k] + 1 <= q.len() by {}
            }
        }
        let mut head: usize = 0;
        while !found && head < marked.len()
            invariant
                g@.wf(),
                adj == g@.adj,
                source < adj.len(),
                partial_search(adj, source, marked@, edge_to@),
                depth_ok(source, marked@, edge_to@, depth),
                depth_monotone(depth),
                forall|k: int| 0 <= k < depth.len() ==> #[trigger] depth[k] >= 1,
                head <= marked@.len(),
                head < marked@.len() ==> depth[marked@.len() - 1] <= depth[head as int] + 1,
                found == (target is Some && marked@.contains(target->0)),
                !found ==> succ_marked(adj, source, marked@),
                !found ==> forall|w: usize| #[trigger] has_edge(adj, source, w) ==> exists|k: int|
                    0 <= k < marked@.len() && marked@[k] == w && depth[k] == 1,
                !found ==> forall|k: int| 0 <= k < head && marked@[k] != source ==> succ_marked(adj, #[trigger] marked@[k], marked@),
                !found ==> forall|k: int| 0 <= k < head && marked@[k] != source ==> succ_shallow(adj, marked@, depth, #[trigger] marked@[k], depth[k]),
                found ==> exists|k: int| 0 <= k < marked@.len() && marked@[k] == target->0 && forall|q: Seq<usize>|
                    #[trigger] is_walk(adj, q) && q[0] == source && q.last() == target->0 ==> depth[k] + 1 <= q.len(),
            decreases adj.len() - head,
        {
            proof {
                lemma_bounded_ids_len(marked@, adj.len());
            }
            let v = marked[head];
            let ghost mb = marked@;
            let ghost eb = edge_to@;
            let ghost db = depth;
            if v != source {
                found = Self::scan(g, source, v, &mut marked, &mut edge_to, target);
                proof {
                    let m = marked@;
                    let e = edge_to@;
                    let dv = db[head as int];
                    depth = db + Seq::new((m.len() - mb.len()) as nat, |i: int| dv + 1);
                    assert forall|k: int| 0 <= k < mb.len() implies m[k] == mb[k] && e[k] == eb[k] by {
                        assert(m.take(mb.len() as int)[k] == mb[k]);
                        assert(e.take(mb.len() as int)[k] == eb[k]);
                    }
                    assert forall|w: usize| mb.contains(w) implies m.contains(w) by {
                        let j = choose|j: int| 0 <= j < mb.len() && mb[j] == w;
                        assert(m[j] == mb[j]);
                    }
                    // Depths follow the discovery chains and never decrease.
                    assert forall|i: int| 0 <= i < m.len() implies (#[trigger] e[i] == source ==> depth[i] == 1) && (e[i]
                        != source ==> exists|j: int| 0 <= j < i && m[j] == e[i] && depth[i] == depth[j] + 1) by {
                        if i < mb.len() {
                            assert(depth[i] == db[i]);
                            if eb[i] != source {
                                let j = choose|j: int| 0 <= j < i && mb[j] == eb[i] && db[i] == db[j] + 1;
                                assert(m[j] == mb[j] && depth[j] == db[j]);
                            }
                        } else {
                            assert(e[i] == v);
                            assert(m[head as int] == v && depth[head as int] == dv);
                        }
                    }
                    assert forall|a: int, b: int| 0 <= a < b < depth.len() implies #[trigger] depth[a] <= #[trigger] depth[b] by {
                        if b >= mb.len() && a < mb.len() {
                            assert(db[a] <= db[mb.len() - 1]);
                        }
                    }
                    assert forall|k: int| 0 <= k < depth.len() implies #[trigger] depth[k] >= 1 by {}
                    if !found {
                        assert(succ_marked(adj, source, mb));
                        assert forall|w: usize| #[trigger] has_edge(adj, source, w) implies exists|k: int|
                            0 <= k < m.len() && m[k] == w && depth[k] == 1 by {
                            let k = choose|k: int| 0 <= k < mb.len() && mb[k] == w && db[k] == 1;
                            assert(m[k] == w && depth[k] == 1);
                        }
                        assert forall|k: int| 0 <= k < head + 1 && m[k] != source implies succ_marked(adj, #[trigger] m[k], m) by {
                            if k < head {
                                assert(succ_marked(adj, mb[k], mb));
                            }
                        }
                        assert forall|k: int| 0 <= k < head + 1 && m[k] != source implies succ_shallow(adj, m, depth, #[trigger] m[k], depth[k]) by {
                            if k < head {
                                assert(succ_shallow(adj, mb, db, mb[k], db[k]));
                                assert forall|w: usize| #[trigger] has_edge(adj, m[k], w) implies exists|kk: int|
                                    0 <= kk < m.len() && m[kk] == w && depth[kk] <= depth[k] + 1 by {
                                    let kk = choose|kk: int| 0 <= kk < mb.len() && mb[kk] == w && db[kk] <= db[k] + 1;
                                    assert(m[kk] == w);
                                }
                            } else {
                                assert forall|w: usize| #[trigger] has_edge(adj, v, w) implies exists|kk: int|
                                    0 <= kk < m.len() && m[kk] == w && depth[kk] <= depth[k] + 1 by {
                                    assert(m.contains(w));
                                    let kk = choose|kk: int| 0 <= kk < m.len() && m[kk] == w;
                                    if kk < mb.len() {
                                        assert(db[kk] <= db[mb.len() - 1]);
                                    }
                                }
                            }
                        }
                    } else {
                        // Every walk to the target of at most `dv` edges ends at a node that
                        // was already marked; the target was not.
                        let t = target->0;
                        let kt = choose|kt: int| 0 <= kt < m.len() && m[kt] == t;
                        assert(!mb.contains(t));
                        if kt < mb.len() {
                            assert(mb[kt] == t);
                        }
                        assert forall|q: Seq<usize>| #[trigger] is_walk(adj, q) && q[0] == source && q.last() == t implies depth[kt] + 1 <= q.len() by {
                            if q.len() - 1 <= dv {
                                lemma_short_walk_marked(adj, source, mb, db, head as int, q, q.len() - 1);
                            }
                        }
                    }
                }
            } else {
                proof {
                    assert forall|k: int| 0 <= k < head + 1 && marked@[k] != source implies succ_marked(adj, #[trigger] marked@[k], marked@) by {}
                    assert forall|k: int| 0 <= k < head + 1 && marked@[k] != source implies succ_shallow(adj, marked@, depth, #[trigger] marked@[k], depth[k]) by {}
                }
            }
            proof {
                if head + 1 < marked@.len() {
                    assert(depth[head as int] <= depth[head + 1]);
                }
            }
            head = head + 1;
        }
        let r = GraphSearch { source, marked, edge_to: Some(edge_to), graph: Ghost(adj), depth: Ghost(depth) };
        proof {
            let m = marked@;
            assert forall|b: usize| #[trigger] m.contains(b) implies reachable(adj, source, b) by {
                let j = choose|j: int| 0 <= j < m.len() && m[j] == b;
                assert(reachable(adj, source, m[j]));
            }
            if !found {
                let ms = m.to_set();
                assert forall|x: usize, w: usize| ms.contains(x) && #[trigger] has_edge(adj, x, w) implies ms.contains(w) by {
                    let j = choose|j: int| 0 <= j < m.len() && m[j] == x;
                    if x != source {
                        assert(succ_marked(adj, m[j], m));
                    } else {
                        assert(succ_marked(adj, source, m));
                    }
                }
                assert forall|w: usize| has_edge(adj, source, w) implies #[trigger] ms.contains(w) by {
                    assert(succ_marked(adj, source, m));
                }
                assert forall|b: usize| reachable(adj, source, b) implies #[trigger] m.contains(b) by {
                    lemma_closed_holds_reachable(adj, source, ms, b);
                }
            } else {
                let t = target->0;
                let k = choose|k: int| 0 <= k < m.len() && m[k] == t && forall|q: Seq<usize>|
                    #[trigger] is_walk(adj, q) && q[0] == source && q.last() == t ==> depth[k] + 1 <= q.len();
                let kc = choose|kc: int| 0 <= kc < m.len() && m[kc] == t;
                assert(kc == k);
                assert(r.spec_depth(t) == depth[k]);
            }
        }
        r
    }

    /// Breadth-first search from `source`; marks exactly the nodes reachable from it.
    pub fn bfs<T>(g: &Graph<T>, source: usize) -> (r: GraphSearch)
        requires
            g@.wf(),
        ensures
            r.searched(g@.adj, source),
            source < g@.size() ==> depth_ok(source, r.spec_marked(), r.spec_edge_to(), r.spec_depths())
                && depth_monotone(r.spec_depths()),
    {
        Self::run_bfs(g, source, None)
    }

    /// Depth-first search from `source`; marks exactly the nodes reachable from it.
    pub fn dfs<T>(g: &Graph<T>, source: usize) -> (r: GraphSearch)
        requires
            g@.wf(),
        ensures
            r.searched(g@.adj, source),
    {
        let ghost adj = g@.adj;
        if source >= g.size() {
            proof {
                lemma_invalid_source_reaches_nothing(adj, source);
            }
            return GraphSearch { source, marked: Vec::new(), edge_to: None, graph: Ghost(adj), depth: Ghost(Seq::empty()) };
        }
        let mut marked: Vec<usize> = Vec::new();
        let mut edge_to: Vec<usize> = Vec::new();
        Self::inner_dfs(g, source, source, &mut marked, &mut edge_to);
        proof {
            let m = marked@;
            assert(m.take(0) =~= Seq::<usize>::empty());
            assert forall|b: usize| #[trigger] m.contains(b) implies reachable(adj, source, b) by {
                let j = choose|j: int| 0 <= j < m.len() && m[j] == b;
                assert(reachable(adj, source, m[j]));
            }
            let ms = m.to_set();
            assert forall|x: usize, w: usize| ms.contains(x) && #[trigger] has_edge(adj, x, w) implies ms.contains(w) by {
                let j = choose|j: int| 0 <= j < m.len() && m[j] == x;
                assert(succ_marked(adj, m[j], m));
            }
            assert forall|w: usize| has_edge(adj, source, w) implies #[trigger] ms.contains(w) by {
                assert(succ_marked(adj, source, m));
            }
            assert forall|b: usize| reachable(adj, source, b) implies #[trigger] m.contains(b) by {
                lemma_closed_holds_reachable(adj, source, ms, b);
            }
        }
        GraphSearch { source, marked, edge_to: Some(edge_to), graph: Ghost(adj), depth: Ghost(Seq::empty()) }
    }

    /// Visits the unmarked successors of `v` depth-first; on return every successor of `v`,
    /// and of every node marked meanwhile, is marked.
    fn inner_dfs<T>(
        g: &Graph<T>,
        source: usize,
        v: usize,
        marked: &mut Vec<usize>,
        edge_to: &mut Vec<usize>,
    )
        requires
            g@.wf(),
            partial_search(g@.adj, source, old(marked)@, old(edge_to)@),
            v == source || old(marked)@.contains(v),
        ensures
            partial_search(g@.adj, source, final(marked)@, final(edge_to)@),
            final(marked)@.len() >= old(marked)@.len(),
            final(marked)@.take(old(marked)@.len() as int) == old(marked)@,
            succ_marked(g@.adj, v, final(marked)@),
            forall|k: int|
                old(marked)@.len() <= k < final(marked)@.len() ==> succ_marked(
                    g@.adj,
                    #[trigger] final(marked)@[k],
                    final(marked)@,
                ),
        decreases g@.size() - old(marked)@.len(),
    {
        let ghost adj = g@.adj;
        let ghost m0 = marked@;
        let succ = g.successors(v);
        let mut i: usize = 0;
        while i < succ.len()
            invariant
                0 <= i <= succ.len(),
                succ@ == adj[v as int],
                g@.wf(),
                adj == g@.adj,
                v < adj.len(),
                v == source || m0.contains(v),
                m0 == old(marked)@,
                partial_search(adj, source, marked@, edge_to@),
                marked@.len() >= m0.len(),
                marked@.take(m0.len() as int) == m0,
                forall|k: int| 0 <= k < i ==> marked@.contains(#[trigger] succ@[k]),
                forall|k: int| m0.len() <= k < marked@.len() ==> succ_marked(adj, #[trigger] marked@[k], marked@),
            decreases succ.len() - i,
        {
            let w = succ[i];
            assert(adj[v as int].contains(w));
            if !contains_id(marked, w) {
                let ghost mb = marked@;
                proof {
                    if v != source {
                        let j = choose|j: int| 0 <= j < m0.len() && m0[j] == v;
                        assert(mb.take(m0.len() as int)[j] == mb[j]);
                    }
                    lemma_bounded_ids_len(mb, adj.len());
                }
                Self::discover(source, v, w, marked, edge_to, Ghost(adj));
                let ghost m1 = marked@;
                proof {
                    lemma_bounded_ids_len(m1, adj.len());
                    assert(m1[m1.len() - 1] == w);
                }
                Self::inner_dfs(g, source, w, marked, edge_to);
                proof {
                    let m = marked@;
                    assert(m1.take(mb.len() as int) =~= mb);
                    lemma_prefix_contains(mb, m1);
                    lemma_prefix_contains(m1, m);
                    assert(m.take(m0.len() as int) =~= m0) by {
                        assert(mb.take(m0.len() as int) == m0);
                        assert(m1.take(mb.len() as int) =~= mb);
                        assert forall|k: int| 0 <= k < m0.len() implies m[k] == m0[k] by {
                            assert(m.take(m1.len() as int)[k] == m1[k]);
                            assert(m1.take(mb.len() as int)[k] == mb[k]);
                            assert(mb.take(m0.len() as int)[k] == m0[k]);
                        }
                    }
                    assert forall|k: int| 0 <= k < i + 1 implies m.contains(#[trigger] succ@[k]) by {
                        if k < i {
                            assert(mb.contains(succ@[k]));
                        } else {
                            assert(m1.contains(w));
                        }
                    }
                    assert forall|k: int| m0.len() <= k < m.len() implies succ_marked(adj, #[trigger] m[k], m) by {
                        if k < mb.len() {
                            assert(m.take(m1.len() as int)[k] == m1[k]);
                            assert(m1[k] == mb[k]);
                            lemma_succ_marked_grow(adj, mb[k], mb, m);
                        } else if k == mb.len() {
                            assert(m.take(m1.len() as int)[k] == m1[k]);
                        }
                    }
                }
            }
            i = i + 1;
        }
        proof {
            assert forall|w: usize| #[trigger] has_edge(adj, v, w) implies marked@.contains(w) by {
                let k = choose|k: int| 0 <= k < succ@.len() && succ@[k] == w;
                assert(marked@.contains(succ@[k]));
            }
        }
    }

    /// The nodes of a shortest walk from `source` to `target`, in ascending id order, or `None`
    /// when `target` cannot be reached. The breadth-first search stops as soon as `target` is
    /// discovered.
    pub fn shortest_path<T>(g: &Graph<T>, source: usize, target: usize) -> (r: Option<Vec<usize>>)
        requires
            g@.wf(),
        ensures
            r is Some <==> source < g@.size() && reachable(g@.adj, source, target),
            r matches Some(p) ==> sorted_shortest_walk_nodes(g@.adj, source, target, p@),
    {
        let search = Self::run_bfs(g, source, Some(target));
        proof {
            if source >= g@.size() {
                lemma_invalid_source_reaches_nothing(g@.adj, source);
            }
        }
        let r = search.path_to(target);
        proof {
            if r is Some {
                let p = r->0@;
                let q = choose|q: Seq<usize>|
                    #[trigger] walk_listed(g@.adj, source, target, p, q) && (search.depths_ok() ==> q.len()
                        == search.spec_depth(target) + 1);
                assert(walk_listed(g@.adj, source, target, p, q) && is_shortest(g@.adj, source, target, q));
            }
        }
        r
    }

    /// Every marked node, in discovery order, or `None` when nothing was reached.
    pub fn all_marked(&self) -> (r: Option<Vec<usize>>)
        ensures
            self.spec_marked().len() == 0 ==> r is None,
            self.spec_marked().len() > 0 ==> r is Some && r->0@ == self.spec_marked(),
    {
        if self.marked.len() == 0 {
            None
        } else {
            Some(self.marked.clone())
        }
    }

    /// Whether the search reached `v`.
    pub fn has_path_to(&self, v: usize) -> (r: bool)
        ensures
            r == self.spec_marked().contains(v),
    {
        contains_id(&self.marked, v)
    }

    /// The nodes on the discovery chain from the source to `v`, in ascending id order, or
    /// `None` when `v` was not reached.
    pub fn path_to(&self, v: usize) -> (r: Option<Vec<usize>>)
        requires
            self.wf(),
        ensures
            r is Some <==> self.spec_marked().contains(v),
            r matches Some(p) ==> sorted_walk_nodes(self.spec_graph(), self.spec_source(), v, p@),
            r is Some ==> exists|q: Seq<usize>|
                #[trigger] walk_listed(self.spec_graph(), self.spec_source(), v, r->0@, q) && follows_predecessors(
                    self.spec_marked(),
                    self.spec_edge_to(),
                    q,
                ) && (self.depths_ok() ==> q.len() == self.spec_depth(v) + 1),
    {
        if !self.has_path_to(v) {
            return None;
        }
        let ghost adj = self.graph@;
        let edge_to = match &self.edge_to {
            Some(e) => e,
            None => {
                return None;
            },
        };
        let ghost m = self.marked@;
        let source = self.source;
        let mut i = index_of(&self.marked, v);
        let ghost i0 = i as int;
        let ghost depth = self.depth@;
        proof {
            let kc = choose|k: int| 0 <= k < m.len() && m[k] == v;
            assert(kc == i0);
        }
        // The discovery chain read backwards: `v`, the node it was found from, and so on.
        let mut chain: Vec<usize> = Vec::new();
        chain.push(v);
        loop
            invariant
                partial_search(adj, source, m, edge_to@),
                depth == self.depth@,
                self.depths_ok() ==> depth_ok(source, m, edge_to@, depth),
                self.depths_ok() ==> chain@.len() + depth[i as int] == depth[i0] + 1,
                self.depths_ok() ==> self.spec_depth(v) == depth[i0],
                m == self.marked@,
                0 <= i < m.len(),
                chain@.len() >= 1,
                chain@[0] == v,
                chain@.last() == m[i as int],
                forall|k: int| 0 <= k < chain@.len() - 1 ==> #[trigger] has_edge(adj, chain@[k + 1], chain@[k]),
                chain@.no_duplicates(),
                forall|k: int| 0 <= k < chain@.len() ==> (exists|j: int| i <= j < m.len() && m[j] == #[trigger] chain@[k]),
                forall|k: int|
                    #![trigger chain@[k]]
                    0 <= k < chain@.len() - 1 ==> exists|j: int| 0 <= j < m.len() && #[trigger] m[j] == chain@[k] && edge_to@[j] == chain@[k + 1],
            ensures
                edge_to@[i as int] == source,
            decreases i,
        {
            let x = edge_to[i];
            if x == source {
                break;
            }
            let ghost cb = chain@;
            assert(has_edge(adj, x, m[i as int]));
            chain.push(x);
            let j = index_of(&self.marked, x);
            proof {
                let jj = choose|jj: int| 0 <= jj < i && m[jj] == edge_to@[i as int];
                assert(m[jj] == m[j as int]);
                if self.depths_ok() {
                    let jd = choose|jd: int| 0 <= jd < i && m[jd] == edge_to@[i as int] && depth[i as int] == depth[jd] + 1;
                    assert(m[jd] == m[j as int]);
                }
                let c = chain@;
                assert forall|k: int| 0 <= k < c.len() - 1 implies #[trigger] has_edge(adj, c[k + 1], c[k]) by {
                    if k < cb.len() - 1 {
                        assert(c[k] == cb[k] && c[k + 1] == cb[k + 1]);
                    }
                }
                assert forall|a: int, b: int| 0 <= a < b < c.len() implies c[a] != c[b] by {
                    if b == c.len() - 1 {
                        assert(c[a] == cb[a]);
                        let ja = choose|ja: int| i <= ja < m.len() && m[ja] == #[trigger] cb[a];
                    } else {
                        assert(c[a] == cb[a] && c[b] == cb[b]);
                    }
                }
                assert forall|k: int| 0 <= k < c.len() implies (exists|jk: int| j <= jk < m.len() && m[jk] == #[trigger] c[k]) by {
                    if k < cb.len() {
                        assert(c[k] == cb[k]);
                        let jk = choose|jk: int| i <= jk < m.len() && m[jk] == #[trigger] cb[k];
                        assert(j <= jk);
                    } else {
                        assert(m[j as int] == c[k]);
                    }
                }
            }
            i = j;
        }
        let ghost cb = chain@;
        chain.push(source);
        proof {
            let c = chain@;
            assert(c.drop_last() =~= cb);
            assert(has_edge(adj, edge_to@[i as int], m[i as int]));
            assert forall|k: int| 0 <= k < c.len() - 1 implies #[trigger] has_edge(adj, c[k + 1], c[k]) by {
                if k < cb.len() - 1 {
                    assert(c[k] == cb[k] && c[k + 1] == cb[k + 1]);
                }
            }
            let q = c.reverse();
            assert forall|k: int| 0 <= k < q.len() - 1 implies #[trigger] has_edge(adj, q[k], q[k + 1]) by {
                let kk = c.len() - 2 - k;
                assert(has_edge(adj, c[kk + 1], c[kk]));
            }
            assert(is_walk(adj, q));
            assert(q.drop_first() =~= c.drop_last().reverse());
            lemma_reverse_no_duplicates(c.drop_last());
            c.lemma_reverse_to_multiset();
        }
        let p = sort_ids(&chain);
        proof {
            let q = chain@.reverse();
            assert(walk_listed(adj, source, v, p@, q));
            if self.depths_ok() {
                assert(depth[i as int] == 1);
                assert(cb.len() == depth[i0]);
                assert(q.len() == chain@.len());
                assert(q.len() == self.spec_depth(v) + 1);
            }
        }
        let ghost pv = p@;
        let r = Some(p);
        proof {
            let q = chain@.reverse();
            let c = chain@;
            assert(r->0@ == pv);
            assert(walk_listed(self.spec_graph(), self.spec_source(), v, r->0@, q));
            assert(self.spec_edge_to() == edge_to@);
            assert forall|k: int| #![trigger q[k]] 0 <= k < q.len() - 1 implies exists|j: int|
                0 <= j < m.len() && #[trigger] m[j] == q[k + 1] && edge_to@[j] == q[k] by {
                let kk = c.len() - 2 - k;
                assert(q[k + 1] == c[kk] && q[k] == c[kk + 1]);
                if kk < cb.len() - 1 {
                    assert(c[kk] == cb[kk] && c[kk + 1] == cb[kk + 1]);
                    let j = choose|j: int| 0 <= j < m.len() && #[trigger] m[j] == cb[kk] && edge_to@[j] == cb[kk + 1];
                } else {
                    assert(c[kk] == m[i as int] && c[kk + 1] == source);
                }
            }
            assert(follows_predecessors(self.spec_marked(), self.spec_edge_to(), q));
        }
        r
    }
}

/// In a breadth-first search processing entry `h`, every walk from the source of at most
/// `depth[h]` edges ends at a node already marked, no deeper than the walk is long.
proof fn lemma_short_walk_marked(
    adj: Seq<Seq<usize>>,
    source: usize,
    marked: Seq<usize>,
    depth: Seq<nat>,
    h: int,
    p: Seq<usize>,
    l: int,
)
    requires
        depth.len() == marked.len(),
        depth_monotone(depth),
        0 <= h < marked.len(),
        forall|w: usize| #[trigger] has_edge(adj, source, w) ==> exists|k: int|
            0 <= k < marked.len() && marked[k] == w && depth[k] == 1,
        forall|k: int| 0 <= k < h && marked[k] != source ==> succ_shallow(adj, marked, depth, #[trigger] marked[k], depth[k]),
        is_walk(adj, p),
        p[0] == source,
        1 <= l < p.len(),
        l <= depth[h],
    ensures
        exists|k: int| 0 <= k < marked.len() && marked[k] == p[l] && depth[k] <= l,
    decreases l,
{
    assert(has_edge(adj, p[l - 1], p[(l - 1) + 1]));
    if l == 1 {
        let k = choose|k: int| 0 <= k < marked.len() && marked[k] == p[1] && depth[k] == 1;
    } else {
        lemma_short_walk_marked(adj, source, marked, depth, h, p, l - 1);
        let j = choose|j: int| 0 <= j < marked.len() && marked[j] == p[l - 1] && depth[j] <= l - 1;
        if j >= h {
            assert(depth[h] <= depth[j]);
        }
        if marked[j] == source {
            let k = choose|k: int| 0 <= k < marked.len() && marked[k] == p[l] && depth[k] == 1;
        } else {
            assert(succ_shallow(adj, marked, depth, marked[j], depth[j]));
            let k = choose|k: int| 0 <= k < marked.len() && marked[k] == p[l] && depth[k] <= depth[j] + 1;
        }
    }
}

proof fn lemma_prefix_contains(a: Seq<usize>, b: Seq<usize>)
    requires
        a.len() <= b.len(),
        b.take(a.len() as int) == a,
    ensures
        forall|x: usize| a.contains(x) ==> #[trigger] b.contains(x),
{
    assert forall|x: usize| a.contains(x) implies #[trigger] b.contains(x) by {
        let j = choose|j: int| 0 <= j < a.len() && a[j] == x;
        assert(b.take(a.len() as int)[j] == b[j]);
    }
}

proof fn lemma_succ_marked_grow(adj: Seq<Seq<usize>>, x: usize, a: Seq<usize>, b: Seq<usize>)
    requires
        succ_marked(adj, x, a),
        forall|y: usize| a.contains(y) ==> #[trigger] b.contains(y),
    ensures
        succ_marked(adj, x, b),
{
}

proof fn lemma_reverse_no_duplicates(s: Seq<usize>)
    requires
        s.no_duplicates(),
    ensures
        s.reverse().no_duplicates(),
{
    let r = s.reverse();
    assert forall|a: int, b: int| 0 <= a < b < r.len() implies r[a] != r[b] by {
        assert(r[a] == s[s.len() - 1 - a] && r[b] == s[s.len() - 1 - b]);
    }
}

/// The same ids in ascending order.
pub fn sort_ids(v: &Vec<usize>) -> (r: Vec<usize>)
    ensures
        sorted(r@),
        r@.to_multiset() == v@.to_multiset(),
{
    let mut r: Vec<usize> = Vec::new();
    let mut i: usize = 0;
    assert(v@.take(0) =~= r@);
    while i < v.len()
        invariant
            i <= v.len(),
            sorted(r@),
            r@.to_multiset() == v@.take(i as int).to_multiset(),
        decreases v.len() - i,
    {
        let x = v[i];
        let mut k: usize = 0;
        while k < r.len() && r[k] <= x
            invariant
                k <= r.len(),
                forall|a: int| 0 <= a < k ==> r@[a] <= x,
            decreases r.len() - k,
        {
            k = k + 1;
        }
        let ghost rb = r@;
        r.insert(k, x);
        proof {
            assert(r@ == rb.insert(k as int, x));
            vstd::seq_lib::to_multiset_insert(rb, k as int, x);
            assert(v@.take(i + 1) =~= v@.take(i as int).push(x));
            vstd::seq_lib::to_multiset_build(v@.take(i as int), x);
            assert forall|a: int, b: int| 0 <= a < b < r@.len() implies r@[a] <= r@[b] by {
                if b < k {
                    assert(r@[a] == rb[a] && r@[b] == rb[b]);
                } else if b == k {
                    assert(r@[a] == rb[a]);
                } else if a == k {
                    assert(r@[b] == rb[b - 1]);
                    if k < rb.len() {
                        assert(rb[k as int] > x);
                        assert(rb[k as int] <= rb[b - 1]);
                    }
                } else if a < k {
                    assert(r@[a] == rb[a] && r@[b] == rb[b - 1]);
                } else {
                    assert(r@[a] == rb[a - 1] && r@[b] == rb[b - 1]);
                }
            }
        }
        i = i + 1;
    }
    assert(v@.take(v.len() as int) =~= v@);
    r
}

/// Position of `x` in a list known to hold it.
fn index_of(list: &Vec<usize>, x: usize) -> (i: usize)
    requires
        list@.contains(x),
    ensures
        i < list@.len(),
        list@[i as int] == x,
        forall|j: int| 0 <= j < i ==> list@[j] != x,
{
    let mut i: usize = 0;
    while i < list.len()
        invariant
            list@.contains(x),
            i <= list@.len(),
            forall|j: int| 0 <= j < i ==> list@[j] != x,
        decreases list.len() - i,
    {
        if list[i] == x {
            return i;
        }
        i = i + 1;
    }
    i
}

} // verus!
