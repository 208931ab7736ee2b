use vstd::prelude::*;
use crate::graph::{
    Graph, GraphView, adj_wf, has_edge, reachable, with_edge, edges_within, id_range, lemma_with_edge, lemma_reachable_mono,
    lemma_reachable_trans, lemma_walk_within_transitive,
    lemma_edge_reachable, lemma_invalid_source_reaches_nothing, lemma_reachable_valid,
};
use crate::modal_config::ModalOptions;
use crate::node::World;
use crate::search::GraphSearch;

verus! {

/// The possible-worlds frame: worlds and their accessibility relation, which may hold cycles
/// and self-loops.
pub type WorldGraph = Graph<World>;

/// The edge relation of `adj`.
pub open spec fn edge_rel(adj: Seq<Seq<usize>>) -> spec_fn(usize, usize) -> bool {
    |a: usize, b: usize| has_edge(adj, a, b)
}

/// `rel` holds of every edge of `adj` and has each frame property that `opts` selects, over
/// the worlds `0..n`.
pub open spec fn frame_contains(
    rel: spec_fn(usize, usize) -> bool,
    adj: Seq<Seq<usize>>,
    n: nat,
    opts: ModalOptions,
) -> bool {
    &&& forall|a: usize, b: usize| #[trigger] has_edge(adj, a, b) ==> rel(a, b)
    &&& opts.rho ==> forall|a: usize| a < n ==> #[trigger] rel(a, a)
    &&& opts.sigma ==> forall|a: usize, b: usize| #[trigger] rel(a, b) ==> rel(b, a)
    &&& opts.tau ==> forall|a: usize, b: usize, c: usize|
        #[trigger] rel(a, b) && #[trigger] rel(b, c) ==> rel(a, c)
}

/// `fin` is the closure of `adj` under the frame properties that `opts` selects: it holds
/// every edge of `adj`, has each selected property, and lies within every relation that does.
pub open spec fn is_modal_closure(fin: Seq<Seq<usize>>, adj: Seq<Seq<usize>>, opts: ModalOptions) -> bool {
    &&& fin.len() == adj.len()
    &&& frame_contains(edge_rel(fin), adj, adj.len(), opts)
    &&& forall|rel: spec_fn(usize, usize) -> bool|
        frame_contains(rel, adj, adj.len(), opts) ==> forall|a: usize, b: usize|
            #[trigger] has_edge(fin, a, b) ==> rel(a, b)
}

/// Each world's id is its index in the frame.
pub open spec fn ids_match(g: GraphView<World>) -> bool {
    forall|i: int| 0 <= i < g.nodes.len() ==> (#[trigger] g.nodes[i]).spec_id() == i
}

/// Sum of the lengths of the successor lists: the number of edges.
pub open spec fn edge_total(adj: Seq<Seq<usize>>) -> nat
    decreases adj.len(),
{
    if adj.len() == 0 {
        0
    } else {
        edge_total(adj.drop_last()) + adj.last().len()
    }
}

impl Graph<World> {
    /// `n` worlds, ids `0..n`, with no accessibility edges.
    pub fn new(n: usize) -> (g: WorldGraph)
        ensures
            g@.wf(),
            g@.size() == n,
            forall|i: int| 0 <= i < n ==> (#[trigger] g@.adj[i]).len() == 0,
            forall|i: int| 0 <= i < n ==> (#[trigger] g@.nodes[i]).spec_id() == i,
            ids_match(g@),
    {
        let mut g: WorldGraph = Graph::empty();
        for i in 0..n
            invariant
                g@.wf(),
                g@.size() == i,
                forall|k: int| 0 <= k < i ==> (#[trigger] g@.adj[k]).len() == 0,
                forall|k: int| 0 <= k < i ==> (#[trigger] g@.nodes[k]).spec_id() == k,
        {
            let ghost gb = g@;
            g.add_node(World::new(i));
            assert forall|k: int| 0 <= k < i + 1 implies (#[trigger] g@.adj[k]).len() == 0 by {
                if k < i {
                    assert(g@.adj[k] == gb.adj[k]);
                }
            }
            assert forall|k: int| 0 <= k < i + 1 implies (#[trigger] g@.nodes[k]).spec_id() == k by {
                if k < i {
                    assert(g@.nodes[k] == gb.nodes[k]);
                }
            }
        }
        g
    }

    /// Number of worlds.
    pub fn v(&self) -> (r: usize)
        requires
            self@.wf(),
        ensures
            r == self@.size(),
    {
        self.size()
    }

    /// Number of accessibility edges (saturating at `usize::MAX`).
    pub fn e(&self) -> (r: usize)
        requires
            self@.wf(),
        ensures
            r == if edge_total(self@.adj) <= usize::MAX {
                edge_total(self@.adj)
            } else {
                usize::MAX as nat
            },
    {
        let ghost adj = self@.adj;
        let n = self.size();
        let mut total: usize = 0;
        for i in 0..n
            invariant
                n == adj.len(),
                adj == self@.adj,
                self@.wf(),
                total == if edge_total(adj.take(i as int)) <= usize::MAX {
                    edge_total(adj.take(i as int))
                } else {
                    usize::MAX as nat
                },
        {
            let len = self.successors(i).len();
            assert(adj.take(i + 1).drop_last() =~= adj.take(i as int));
            total = total.saturating_add(len);
        }
        assert(adj.take(n as int) =~= adj);
        total
    }

    /// Every world id, ascending.
    pub fn all_worlds(&self) -> (r: Vec<usize>)
        requires
            self@.wf(),
        ensures
            r@ == id_range(self@.size()),
    {
        self.node_ids()
    }

    /// The id the next new world will get.
    pub fn next_world(&self) -> (r: usize)
        requires
            self@.wf(),
        ensures
            r == self@.size(),
    {
        self.size()
    }

    /// Allocates a new world with no edges and returns its id.
    pub fn add_world(&mut self) -> (id: usize)
        requires
            old(self)@.wf(),
            old(self)@.size() < usize::MAX,
        ensures
            final(self)@.wf(),
            id == old(self)@.size(),
            final(self)@.adj == old(self)@.adj.push(Seq::<usize>::empty()),
            final(self)@.nodes.len() == old(self)@.nodes.len() + 1,
            final(self)@.nodes.take(id as int) == old(self)@.nodes,
            final(self)@.nodes[id as int].spec_id() == id,
            ids_match(old(self)@) ==> ids_match(final(self)@),
    {
        let id = self.next_world();
        let ghost nb = self@.nodes;
        self.add_node(World::new(id));
        assert(self@.nodes.take(id as int) =~= nb);
        assert forall|i: int| 0 <= i < id implies self@.nodes[i] == nb[i] by {
            assert(self@.nodes.take(id as int)[i] == nb[i]);
        }
        id
    }

    /// The worlds accessible from world `id`, or `None` when `id` is not a world.
    pub fn accessible(&self, id: usize) -> (r: Option<Vec<&World>>)
        requires
            self@.wf(),
        ensures
            id >= self@.size() ==> r is None,
            id < self@.size() ==> r is Some && r->0.len() == self@.adj[id as int].len() && forall|i: int|
                0 <= i < r->0.len() ==> *#[trigger] r->0@[i] == self@.nodes[self@.adj[id as int][i] as int],
            id < self@.size() && ids_match(self@) ==> forall|i: int|
                0 <= i < r->0.len() ==> (#[trigger] r->0@[i]).spec_id() == self@.adj[id as int][i],
    {
        if id >= self.size() {
            return None;
        }
        let succ = self.successors(id);
        let mut out: Vec<&World> = Vec::new();
        for i in 0..succ.len()
            invariant
                self@.wf(),
                id < self@.size(),
                succ@ == self@.adj[id as int],
                out.len() == i,
                forall|k: int| 0 <= k < i ==> *#[trigger] out@[k] == self@.nodes[succ@[k] as int],
        {
            let x = succ[i];
            assert(self@.adj[id as int][i as int] < self@.adj.len());
            match self.get_node(x) {
                Some(w) => out.push(w),
                None => {},
            }
        }
        Some(out)
    }

    /// Makes every world accessible from every world.
    pub fn connect_all(&mut self)
        requires
            old(self)@.wf(),
        ensures
            final(self)@.wf(),
            final(self)@.nodes == old(self)@.nodes,
            forall|a: usize, b: usize|
                #[trigger] has_edge(final(self)@.adj, a, b) <==> a < old(self)@.size() && b < old(
                    self,
                )@.size(),
    {
        let n = self.size();
        let ghost a0 = self@.adj;
        for i in 0..n
            invariant
                self@.wf(),
                self@.nodes == old(self)@.nodes,
                n == self@.size(),
                a0 == old(self)@.adj,
                forall|a: usize, b: usize|
                    #[trigger] has_edge(self@.adj, a, b) <==> (has_edge(a0, a, b) || (a < i && b < n)),
        {
            for j in 0..n
                invariant
                    self@.wf(),
                    self@.nodes == old(self)@.nodes,
                    n == self@.size(),
                    i < n,
                    a0 == old(self)@.adj,
                    forall|a: usize, b: usize|
                        #[trigger] has_edge(self@.adj, a, b) <==> (has_edge(a0, a, b) || (a < i && b < n)
                            || (a == i && b < j)),
            {
                proof {
                    lemma_with_edge(self@.adj, i, j);
                }
                let ghost before = self@.adj;
                self.add_edge(i, j);
                proof {
                    assert forall|a: usize, b: usize| #[trigger] has_edge(self@.adj, a, b) <==> (has_edge(a0, a, b)
                        || (a < i && b < n) || (a == i && b < j + 1)) by {
                        assert(has_edge(self@.adj, a, b) <==> (has_edge(before, a, b) || (a == i && b == j)));
                    }
                }
            }
        }
    }

    /// Adds the edge `v -> w`, as `add_edge` does, and says whether it was new.
    fn add_edge_tracked(&mut self, v: usize, w: usize) -> (added: bool)
        requires
            old(self)@.wf(),
        ensures
            final(self)@.wf(),
            final(self)@.nodes == old(self)@.nodes,
            final(self)@.adj == with_edge(old(self)@.adj, v, w),
            added ==> edge_total(final(self)@.adj) == edge_total(old(self)@.adj) + 1,
            !added ==> final(self)@.adj == old(self)@.adj,
    {
        let n = self.size();
        let present = match self.adj_test(v, w) {
            Some(p) => p,
            None => true,
        };
        self.add_edge(v, w);
        let added = v < n && w < n && !present;
        proof {
            if added {
                lemma_edge_total_push(old(self)@.adj, v as int, w);
            }
        }
        added
    }

    /// Adds a self-loop at every world.
    fn close_reflexive(&mut self) -> (changed: bool)
        requires
            old(self)@.wf(),
        ensures
            edge_total(final(self)@.adj) >= edge_total(old(self)@.adj),
            changed ==> edge_total(final(self)@.adj) > edge_total(old(self)@.adj),
            !changed ==> final(self)@.adj == old(self)@.adj,
            final(self)@.wf(),
            final(self)@.nodes == old(self)@.nodes,
            forall|a: usize, b: usize|
                #[trigger] has_edge(final(self)@.adj, a, b) <==> (has_edge(old(self)@.adj, a, b) || (a
                    == b && a < old(self)@.size())),
    {
        let n = self.size();
        let mut changed = false;
        for i in 0..n
            invariant
                edge_total(self@.adj) >= edge_total(old(self)@.adj),
                changed ==> edge_total(self@.adj) > edge_total(old(self)@.adj),
                !changed ==> self@.adj == old(self)@.adj,
                self@.wf(),
                self@.nodes == old(self)@.nodes,
                n == self@.size(),
                forall|a: usize, b: usize|
                    #[trigger] has_edge(self@.adj, a, b) <==> (has_edge(old(self)@.adj, a, b) || (a == b
                        && a < i)),
        {
            proof {
                lemma_with_edge(self@.adj, i, i);
            }
            let ghost before = self@.adj;
            if self.add_edge_tracked(i, i) {
                    changed = true;
                }
            proof {
                assert forall|a: usize, b: usize| #[trigger] has_edge(self@.adj, a, b) <==> (has_edge(old(self)@.adj, a, b)
                    || (a == b && a < i + 1)) by {
                    assert(has_edge(self@.adj, a, b) <==> (has_edge(before, a, b) || (a == i && b == i)));
                }
            }
        }
        changed
    }

    /// Adds the reverse of every edge.
    fn close_symmetric(&mut self) -> (changed: bool)
        requires
            old(self)@.wf(),
        ensures
            edge_total(final(self)@.adj) >= edge_total(old(self)@.adj),
            changed ==> edge_total(final(self)@.adj) > edge_total(old(self)@.adj),
            !changed ==> final(self)@.adj == old(self)@.adj,
            final(self)@.wf(),
            final(self)@.nodes == old(self)@.nodes,
            forall|a: usize, b: usize|
                #[trigger] has_edge(final(self)@.adj, a, b) <==> (has_edge(old(self)@.adj, a, b)
                    || has_edge(old(self)@.adj, b, a)),
    {
        let n = self.size();
        let mut changed = false;
        let ghost a0 = self@.adj;
        for w in 0..n
            invariant
                edge_total(self@.adj) >= edge_total(old(self)@.adj),
                changed ==> edge_total(self@.adj) > edge_total(old(self)@.adj),
                !changed ==> self@.adj == old(self)@.adj,
                self@.wf(),
                self@.nodes == old(self)@.nodes,
                n == self@.size(),
                a0 == old(self)@.adj,
                forall|a: usize, b: usize|
                    #[trigger] has_edge(self@.adj, a, b) <==> (has_edge(a0, a, b) || (has_edge(a0, b, a)
                        && b < w)),
        {
            let ghost start = self@.adj;
            let list = copy_ids(self.successors(w));
            for k in 0..list.len()
                invariant
                    edge_total(self@.adj) >= edge_total(old(self)@.adj),
                    changed ==> edge_total(self@.adj) > edge_total(old(self)@.adj),
                    !changed ==> self@.adj == old(self)@.adj,
                    self@.wf(),
                    self@.nodes == old(self)@.nodes,
                    n == self@.size(),
                    w < n,
                    a0 == old(self)@.adj,
                    start.len() == n,
                    adj_wf(start),
                    list@ == start[w as int],
                    forall|a: usize, b: usize|
                        #[trigger] has_edge(start, a, b) <==> (has_edge(a0, a, b) || (has_edge(a0, b, a)
                            && b < w)),
                    forall|a: usize, b: usize|
                        #[trigger] has_edge(self@.adj, a, b) <==> (has_edge(start, a, b) || (b == w
                            && list@.take(k as int).contains(a))),
            {
                let x = list[k];
                proof {
                    lemma_with_edge(self@.adj, x, w);
                    assert(start[w as int].contains(x));
                    assert(has_edge(start, w, x));
                    assert(x < n);
                    assert(list@.take(k + 1) =~= list@.take(k as int).push(x));
                    assert forall|a: usize| list@.take(k + 1).contains(a) <==> (list@.take(
                        k as int,
                    ).contains(a) || a == x) by {
                        if list@.take(k + 1).contains(a) && a != x {
                            let j = choose|j: int| 0 <= j < k + 1 && #[trigger] list@.take(k + 1)[j] == a;
                            assert(list@.take(k as int)[j] == a);
                        }
                        if a == x {
                            assert(list@.take(k + 1)[k as int] == x);
                        }
                    }
                }
                let ghost before = self@.adj;
                if self.add_edge_tracked(x, w) {
                    changed = true;
                }
                proof {
                    assert forall|a: usize, b: usize| #[trigger] has_edge(self@.adj, a, b) <==> (has_edge(start, a, b)
                        || (b == w && list@.take(k + 1).contains(a))) by {
                        assert(has_edge(self@.adj, a, b) <==> (has_edge(before, a, b) || (a == x && b == w)));
                        assert(has_edge(before, a, b) <==> (has_edge(start, a, b) || (b == w && list@.take(k as int).contains(a))));
                    }
                }
            }
            proof {
                assert(list@.take(list@.len() as int) =~= list@);
                assert forall|a: usize, b: usize| #[trigger] has_edge(self@.adj, a, b) <==> (has_edge(
                    a0,
                    a,
                    b,
                ) || (has_edge(a0, b, a) && b < w + 1)) by {
                    if b == w && list@.contains(a) {
                        assert(has_edge(start, w, a));
                    }
                    if has_edge(a0, b, a) && b == w {
                        assert(has_edge(start, w, a));
                    }
                }
            }
        }
        changed
    }

    /// Adds an edge from every world to every world reachable from it.
    fn close_transitive(&mut self) -> (changed: bool)
        requires
            old(self)@.wf(),
        ensures
            edge_total(final(self)@.adj) >= edge_total(old(self)@.adj),
            changed ==> edge_total(final(self)@.adj) > edge_total(old(self)@.adj),
            !changed ==> final(self)@.adj == old(self)@.adj,
            final(self)@.wf(),
            final(self)@.nodes == old(self)@.nodes,
            forall|a: usize, b: usize|
                #[trigger] has_edge(final(self)@.adj, a, b) <==> reachable(old(self)@.adj, a, b),
    {
        let n = self.size();
        let mut changed = false;
        let ghost a0 = self@.adj;
        let ghost r0 = |x: usize, y: usize| reachable(a0, x, y);
        proof {
            assert forall|x: usize, y: usize, z: usize| #[trigger] r0(x, y) && #[trigger] r0(y, z) implies r0(x, z) by {
                lemma_reachable_trans(a0, x, y, z);
            }
            assert forall|a: usize, b: usize| #[trigger] has_edge(a0, a, b) implies reachable(a0, a, b) by {
                lemma_edge_reachable(a0, a, b);
            }
        }
        for w in 0..n
            invariant
                edge_total(self@.adj) >= edge_total(old(self)@.adj),
                changed ==> edge_total(self@.adj) > edge_total(old(self)@.adj),
                !changed ==> self@.adj == old(self)@.adj,
                self@.wf(),
                self@.nodes == old(self)@.nodes,
                n == self@.size(),
                a0 == old(self)@.adj,
                r0 == (|x: usize, y: usize| reachable(a0, x, y)),
                forall|x: usize, y: usize, z: usize| #[trigger] r0(x, y) && #[trigger] r0(y, z) ==> r0(x, z),
                edges_within(a0, self@.adj),
                forall|a: usize, b: usize| #[trigger] has_edge(self@.adj, a, b) ==> reachable(a0, a, b),
                forall|a: usize, b: usize| a < w && reachable(a0, a, b) ==> #[trigger] has_edge(self@.adj, a, b),
        {
            let ghost start = self@.adj;
            let search = GraphSearch::bfs(self, w);
            let marked = match search.all_marked() {
                Some(m) => m,
                None => Vec::new(),
            };
            proof {
                assert(forall|b: usize| #[trigger] marked@.contains(b) <==> search.spec_marked().contains(b));
                assert forall|b: usize| #[trigger] marked@.contains(b) implies b < n by {
                    lemma_reachable_valid(start, w, b);
                }
                assert forall|b: usize| #[trigger] marked@.contains(b) <==> reachable(a0, w, b) by {
                    if reachable(a0, w, b) {
                        lemma_reachable_mono(a0, start, w, b);
                    }
                    if reachable(start, w, b) {
                        assert forall|x: usize, y: usize| #[trigger] has_edge(start, x, y) implies r0(x, y) by {}
                        lemma_walk_within_transitive(start, r0, w, b);
                    }
                }
            }
            for j in 0..marked.len()
                invariant
                    edge_total(self@.adj) >= edge_total(old(self)@.adj),
                    changed ==> edge_total(self@.adj) > edge_total(old(self)@.adj),
                    !changed ==> self@.adj == old(self)@.adj,
                    self@.wf(),
                    self@.nodes == old(self)@.nodes,
                    n == self@.size(),
                    w < n,
                    a0 == old(self)@.adj,
                    forall|b: usize| #[trigger] marked@.contains(b) <==> reachable(a0, w, b),
                    forall|b: usize| #[trigger] marked@.contains(b) ==> b < n,
                    forall|a: usize, b: usize|
                        #[trigger] has_edge(self@.adj, a, b) <==> (has_edge(start, a, b) || (a == w
                            && marked@.take(j as int).contains(b))),
            {
                let b = marked[j];
                proof {
                    lemma_with_edge(self@.adj, w, b);
                    assert(marked@.take(j + 1) =~= marked@.take(j as int).push(b));
                    assert forall|x: usize| marked@.take(j + 1).contains(x) <==> (marked@.take(
                        j as int,
                    ).contains(x) || x == b) by {
                        if marked@.take(j + 1).contains(x) && x != b {
                            let i = choose|i: int| 0 <= i < j + 1 && #[trigger] marked@.take(j + 1)[i] == x;
                            assert(marked@.take(j as int)[i] == x);
                        }
                        if x == b {
                            assert(marked@.take(j + 1)[j as int] == b);
                        }
                    }
                    assert(marked@.contains(b));
                    assert(b < n);
                }
                let ghost before = self@.adj;
                if self.add_edge_tracked(w, b) {
                    changed = true;
                }
                proof {
                    assert forall|a: usize, c: usize| #[trigger] has_edge(self@.adj, a, c) <==> (has_edge(start, a, c)
                        || (a == w && marked@.take(j + 1).contains(c))) by {
                        assert(has_edge(self@.adj, a, c) <==> (has_edge(before, a, c) || (a == w && c == b)));
                        assert(has_edge(before, a, c) <==> (has_edge(start, a, c) || (a == w && marked@.take(j as int).contains(c))));
                    }
                }
            }
            proof {
                assert(marked@.take(marked@.len() as int) =~= marked@);
                assert forall|a: usize, b: usize| #[trigger] has_edge(self@.adj, a, b) implies reachable(a0, a, b) by {
                    if a == w && marked@.contains(b) {
                    }
                }
                assert forall|a: usize, b: usize| a < w + 1 && reachable(a0, a, b) implies #[trigger] has_edge(self@.adj, a, b) by {
                    if a == w {
                        assert(marked@.contains(b));
                    }
                }
                assert forall|a: usize, b: usize| #[trigger] has_edge(a0, a, b) implies has_edge(self@.adj, a, b) by {
                    assert(has_edge(start, a, b));
                }
            }
        }
        proof {
            assert forall|a: usize, b: usize| #[trigger] has_edge(self@.adj, a, b) <==> reachable(a0, a, b) by {
                if reachable(a0, a, b) && a >= n {
                    lemma_invalid_source_reaches_nothing(a0, a);
                }
            }
        }
        changed
    }

    /// Closes the accessibility relation under the frame properties that `config` selects:
    /// the reflexive, symmetric and transitive passes run again and again until none adds an
    /// edge. The result is the least relation that holds the old edges and has every selected
    /// property. Seriality (`eta`) is representable in the options but adds no edges.
    pub fn implement_modals(&mut self, config: &ModalOptions)
        requires
            old(self)@.wf(),
        ensures
            final(self)@.wf(),
            final(self)@.nodes == old(self)@.nodes,
            is_modal_closure(final(self)@.adj, old(self)@.adj, *config),
    {
        let ghost a0 = self@.adj;
        let ghost n = self@.size();
        let ghost opts = *config;
        loop
            invariant
                self@.wf(),
                self@.nodes == old(self)@.nodes,
                a0 == old(self)@.adj,
                opts == *config,
                n == self@.size(),
                n == a0.len(),
                edges_within(a0, self@.adj),
                forall|rel: spec_fn(usize, usize) -> bool|
                    frame_contains(rel, a0, n, opts) ==> forall|a: usize, b: usize|
                        #[trigger] has_edge(self@.adj, a, b) ==> rel(a, b),
            ensures
                self@.wf(),
                self@.nodes == old(self)@.nodes,
                is_modal_closure(self@.adj, a0, opts),
            decreases n * n - edge_total(self@.adj),
        {
            let ghost start = self@.adj;
            proof {
                lemma_edge_total_bound(start);
            }
            let mut changed = false;
            if config.rho() {
                if self.close_reflexive() {
                    changed = true;
                }
            }
            let ghost a1 = self@.adj;
            if config.sigma() {
                if self.close_symmetric() {
                    changed = true;
                }
            }
            let ghost a2 = self@.adj;
            if config.tau() {
                if self.close_transitive() {
                    changed = true;
                }
            }
            let ghost a3 = self@.adj;
            proof {
                lemma_edge_total_bound(a3);
                // Every relation that holds the old edges and has the selected properties
                // holds each edge added in this round.
                assert forall|rel: spec_fn(usize, usize) -> bool|
                    frame_contains(rel, a0, n, opts) implies forall|a: usize, b: usize|
                        #[trigger] has_edge(a3, a, b) ==> rel(a, b) by {
                    assert forall|a: usize, b: usize| #[trigger] has_edge(a1, a, b) implies rel(a, b) by {
                        if has_edge(start, a, b) {
                        }
                    }
                    assert forall|a: usize, b: usize| #[trigger] has_edge(a2, a, b) implies rel(a, b) by {
                        if opts.sigma && !has_edge(a1, a, b) {
                            assert(has_edge(a1, b, a));
                            assert(rel(b, a));
                        }
                    }
                    if opts.tau {
                        assert forall|a: usize, b: usize| #[trigger] has_edge(a3, a, b) implies rel(a, b) by {
                            assert(reachable(a2, a, b));
                            lemma_walk_within_transitive(a2, rel, a, b);
                        }
                    }
                }
                assert forall|a: usize, b: usize| #[trigger] has_edge(a0, a, b) implies has_edge(a3, a, b) by {
                    assert(has_edge(start, a, b));
                    assert(has_edge(a1, a, b));
                    assert(has_edge(a2, a, b));
                    if opts.tau {
                        lemma_edge_reachable(a2, a, b);
                    }
                }
            }
            if !changed {
                proof {
                    // No pass added an edge, so the relation already has each selected property.
                    assert(a1 == start && a2 == start && a3 == start);
                    let fin = edge_rel(a3);
                    assert forall|a: usize, b: usize| #[trigger] has_edge(a0, a, b) implies fin(a, b) by {}
                    if opts.rho {
                        assert forall|a: usize| a < n implies #[trigger] fin(a, a) by {
                            assert(has_edge(a1, a, a));
                        }
                    }
                    if opts.sigma {
                        assert forall|a: usize, b: usize| #[trigger] fin(a, b) implies fin(b, a) by {
                            assert(has_edge(a2, b, a));
                        }
                    }
                    if opts.tau {
                        assert forall|a: usize, b: usize, c: usize| #[trigger] fin(a, b) && #[trigger] fin(b, c) implies fin(a, c) by {
                            lemma_edge_reachable(a2, a, b);
                            lemma_edge_reachable(a2, b, c);
                            lemma_reachable_trans(a2, a, b, c);
                        }
                    }
                }
                break;
            }
        }
    }
}

/// Appending to one successor list adds one edge.
proof fn lemma_edge_total_push(adj: Seq<Seq<usize>>, v: int, w: usize)
    requires
        0 <= v < adj.len(),
    ensures
        edge_total(adj.update(v, adj[v].push(w))) == edge_total(adj) + 1,
    decreases adj.len(),
{
    let u = adj.update(v, adj[v].push(w));
    if v == adj.len() - 1 {
        assert(u.drop_last() =~= adj.drop_last());
    } else {
        let d = adj.drop_last();
        assert(u.drop_last() =~= d.update(v, d[v].push(w)));
        lemma_edge_total_push(d, v, w);
    }
}

/// A graph on `n` worlds has at most `n * n` edges.
proof fn lemma_edge_total_bound(adj: Seq<Seq<usize>>)
    requires
        adj_wf(adj),
    ensures
        edge_total(adj) <= adj.len() * adj.len(),
{
    lemma_edge_total_prefix(adj, adj.len() as int);
    assert(adj.take(adj.len() as int) =~= adj);
}

proof fn lemma_edge_total_prefix(adj: Seq<Seq<usize>>, k: int)
    requires
        adj_wf(adj),
        0 <= k <= adj.len(),
    ensures
        edge_total(adj.take(k)) <= k * adj.len(),
    decreases k,
{
    let n = adj.len();
    if k > 0 {
        lemma_edge_total_prefix(adj, k - 1);
        assert(adj.take(k).drop_last() =~= adj.take(k - 1));
        crate::graph::lemma_bounded_ids_len(adj[k - 1], n);
        assert(k * n == (k - 1) * n + n) by (nonlinear_arith);
    } else {
        assert(adj.take(0).len() == 0);
    }
}

/// A copy of an id list.
pub fn copy_ids(v: &Vec<usize>) -> (r: Vec<usize>)
    ensures
        r@ == v@,
{
    let mut r: Vec<usize> = Vec::new();
    for i in 0..v.len()
        invariant
            r@ == v@.take(i as int),
    {
        r.push(v[i]);
        assert(v@.take(i + 1) =~= v@.take(i as int).push(v@[i as int]));
    }
    assert(v@.take(v.len() as int) =~= v@);
    r
}

} // verus!
