use std::collections::HashSet;
use vstd::prelude::*;

verus! {

broadcast use vstd::std_specs::hash::group_hash_axioms;

/// Every successor list is duplicate-free and names only ids below `adj.len()`.
pub open spec fn adj_wf(adj: Seq<Seq<usize>>) -> bool {
    forall|v: int|
        0 <= v < adj.len() ==> {
            &&& (#[trigger] adj[v]).no_duplicates()
            &&& forall|j: int| 0 <= j < adj[v].len() ==> (#[trigger] adj[v][j]) < adj.len()
        }
}

/// There is a directed edge `v -> w`.
pub open spec fn has_edge(adj: Seq<Seq<usize>>, v: usize, w: usize) -> bool {
    v < adj.len() && adj[v as int].contains(w)
}

/// The adjacency after `add_edge(v, w)`: `w` is appended to `v`'s successors when both ids are
/// valid and the edge is not there yet; otherwise nothing changes.
pub open spec fn with_edge(adj: Seq<Seq<usize>>, v: usize, w: usize) -> Seq<Seq<usize>> {
    if v < adj.len() && w < adj.len() && !adj[v as int].contains(w) {
        adj.update(v as int, adj[v as int].push(w))
    } else {
        adj
    }
}

/// `p` is a walk of at least one edge.
pub open spec fn is_walk(adj: Seq<Seq<usize>>, p: Seq<usize>) -> bool {
    &&& p.len() >= 2
    &&& forall|i: int| 0 <= i < p.len() - 1 ==> #[trigger] has_edge(adj, p[i], p[i + 1])
}

/// `b` can be reached from `a` by following one edge or more.
pub open spec fn reachable(adj: Seq<Seq<usize>>, a: usize, b: usize) -> bool {
    exists|p: Seq<usize>| #[trigger] is_walk(adj, p) && p[0] == a && p.last() == b
}

pub proof fn lemma_edge_reachable(adj: Seq<Seq<usize>>, a: usize, b: usize)
    requires
        has_edge(adj, a, b),
    ensures
        reachable(adj, a, b),
{
    let p = seq![a, b];
    assert(has_edge(adj, p[0], p[1]));
    assert(is_walk(adj, p));
}

pub proof fn lemma_walk_push(adj: Seq<Seq<usize>>, p: Seq<usize>, w: usize)
    requires
        is_walk(adj, p),
        has_edge(adj, p.last(), w),
    ensures
        is_walk(adj, p.push(w)),
{
    let q = p.push(w);
    assert forall|i: int| 0 <= i < q.len() - 1 implies #[trigger] has_edge(adj, q[i], q[i + 1]) by {
        if i < p.len() - 1 {
            assert(q[i] == p[i] && q[i + 1] == p[i + 1]);
        }
    }
}

pub proof fn lemma_reachable_step(adj: Seq<Seq<usize>>, a: usize, v: usize, w: usize)
    requires
        reachable(adj, a, v),
        has_edge(adj, v, w),
    ensures
        reachable(adj, a, w),
{
    let p = choose|p: Seq<usize>| #[trigger] is_walk(adj, p) && p[0] == a && p.last() == v;
    lemma_walk_push(adj, p, w);
    assert(p.push(w)[0] == a);
}

/// A set that holds every successor of `s` and of each of its own members holds everything
/// reachable from `s`.
pub proof fn lemma_closed_holds_reachable(adj: Seq<Seq<usize>>, s: usize, m: Set<usize>, b: usize)
    requires
        forall|w: usize| has_edge(adj, s, w) ==> #[trigger] m.contains(w),
        forall|x: usize, w: usize| m.contains(x) && #[trigger] has_edge(adj, x, w) ==> m.contains(w),
        reachable(adj, s, b),
    ensures
        m.contains(b),
{
    let p = choose|p: Seq<usize>| #[trigger] is_walk(adj, p) && p[0] == s && p.last() == b;
    assert forall|i: int| 1 <= i < p.len() implies m.contains(#[trigger] p[i]) by {
        lemma_walk_prefix_in(adj, s, m, p, i);
    }
}

proof fn lemma_walk_prefix_in(adj: Seq<Seq<usize>>, s: usize, m: Set<usize>, p: Seq<usize>, i: int)
    requires
        forall|w: usize| has_edge(adj, s, w) ==> #[trigger] m.contains(w),
        forall|x: usize, w: usize| m.contains(x) && #[trigger] has_edge(adj, x, w) ==> m.contains(w),
        is_walk(adj, p),
        p[0] == s,
        1 <= i < p.len(),
    ensures
        m.contains(p[i]),
    decreases i,
{
    assert(has_edge(adj, p[i - 1], p[(i - 1) + 1]));
    if i > 1 {
        lemma_walk_prefix_in(adj, s, m, p, i - 1);
    }
}

/// Reachability is transitive.
pub proof fn lemma_reachable_trans(adj: Seq<Seq<usize>>, a: usize, c: usize, b: usize)
    requires
        reachable(adj, a, c),
        reachable(adj, c, b),
    ensures
        reachable(adj, a, b),
{
    let p = choose|p: Seq<usize>| #[trigger] is_walk(adj, p) && p[0] == a && p.last() == c;
    let q = choose|q: Seq<usize>| #[trigger] is_walk(adj, q) && q[0] == c && q.last() == b;
    let r = p + q.drop_first();
    assert forall|i: int| 0 <= i < r.len() - 1 implies #[trigger] has_edge(adj, r[i], r[i + 1]) by {
        if i < p.len() - 1 {
            assert(r[i] == p[i] && r[i + 1] == p[i + 1]);
        } else if i == p.len() - 1 {
            assert(r[i] == q[0] && r[i + 1] == q[1]);
            assert(has_edge(adj, q[0int], q[0int + 1]));
        } else {
            let k = i - p.len() + 1;
            assert(r[i] == q[k] && r[i + 1] == q[k + 1]);
        }
    }
    assert(is_walk(adj, r) && r[0] == a && r.last() == b);
}

/// Every edge of `small` is an edge of `big`.
pub open spec fn edges_within(small: Seq<Seq<usize>>, big: Seq<Seq<usize>>) -> bool {
    forall|a: usize, b: usize| #[trigger] has_edge(small, a, b) ==> has_edge(big, a, b)
}

/// Adding edges keeps what was reachable reachable.
pub proof fn lemma_reachable_mono(small: Seq<Seq<usize>>, big: Seq<Seq<usize>>, a: usize, b: usize)
    requires
        edges_within(small, big),
        reachable(small, a, b),
    ensures
        reachable(big, a, b),
{
    let p = choose|p: Seq<usize>| #[trigger] is_walk(small, p) && p[0] == a && p.last() == b;
    assert forall|i: int| 0 <= i < p.len() - 1 implies #[trigger] has_edge(big, p[i], p[i + 1]) by {
        assert(has_edge(small, p[i], p[i + 1]));
    }
    assert(is_walk(big, p));
}

/// If every edge of `g` is a step that `rel` can make (reflexive steps aside) and `rel` is
/// transitive, every walk of `g` is a step of `rel`.
pub proof fn lemma_walk_within_transitive(
    g: Seq<Seq<usize>>,
    rel: spec_fn(usize, usize) -> bool,
    a: usize,
    b: usize,
)
    requires
        forall|x: usize, y: usize| #[trigger] has_edge(g, x, y) ==> rel(x, y),
        forall|x: usize, y: usize, z: usize| #[trigger] rel(x, y) && #[trigger] rel(y, z) ==> rel(x, z),
        reachable(g, a, b),
    ensures
        rel(a, b),
{
    let p = choose|p: Seq<usize>| #[trigger] is_walk(g, p) && p[0] == a && p.last() == b;
    lemma_walk_prefix_rel(g, rel, p, p.len() - 1);
}

proof fn lemma_walk_prefix_rel(g: Seq<Seq<usize>>, rel: spec_fn(usize, usize) -> bool, p: Seq<usize>, i: int)
    requires
        forall|x: usize, y: usize| #[trigger] has_edge(g, x, y) ==> rel(x, y),
        forall|x: usize, y: usize, z: usize| #[trigger] rel(x, y) && #[trigger] rel(y, z) ==> rel(x, z),
        is_walk(g, p),
        1 <= i < p.len(),
    ensures
        rel(p[0], p[i]),
    decreases i,
{
    assert(has_edge(g, p[i - 1], p[(i - 1) + 1]));
    if i > 1 {
        lemma_walk_prefix_rel(g, rel, p, i - 1);
    }
}

/// The edges after `add_edge(v, w)`.
pub proof fn lemma_with_edge(adj: Seq<Seq<usize>>, v: usize, w: usize)
    ensures
        forall|a: usize, b: usize|
            #[trigger] has_edge(with_edge(adj, v, w), a, b) <==> (has_edge(adj, a, b) || (a == v && b
                == w && v < adj.len() && w < adj.len())),
        with_edge(adj, v, w).len() == adj.len(),
{
    let n = with_edge(adj, v, w);
    assert forall|a: usize, b: usize| #[trigger] has_edge(n, a, b) <==> (has_edge(adj, a, b) || (a == v && b
        == w && v < adj.len() && w < adj.len())) by {
        if v < adj.len() && w < adj.len() && !adj[v as int].contains(w) && a == v {
            let ai = a as int;
            assert(n[ai] == adj[ai].push(w));
            if adj[ai].contains(b) {
                let k = choose|k: int| 0 <= k < adj[ai].len() && adj[ai][k] == b;
                assert(n[ai][k] == adj[ai][k]);
            }
            if n[ai].contains(b) && b != w {
                let k = choose|k: int| 0 <= k < n[ai].len() && n[ai][k] == b;
                assert(n[ai][k] == adj[ai][k]);
            }
            if b == w {
                assert(n[ai][n[ai].len() - 1] == w);
            }
        }
    }
}

/// Nothing is reachable from an id that is not a node.
pub proof fn lemma_invalid_source_reaches_nothing(adj: Seq<Seq<usize>>, source: usize)
    requires
        source >= adj.len(),
    ensures
        forall|b: usize| !reachable(adj, source, b),
{
    assert forall|b: usize| !reachable(adj, source, b) by {
        if reachable(adj, source, b) {
            let p = choose|p: Seq<usize>| #[trigger] is_walk(adj, p) && p[0] == source && p.last() == b;
            assert(has_edge(adj, p[0int], p[0int + 1]));
        }
    }
}

/// Both ends of a walk are nodes.
pub proof fn lemma_reachable_valid(adj: Seq<Seq<usize>>, a: usize, b: usize)
    requires
        adj_wf(adj),
        reachable(adj, a, b),
    ensures
        a < adj.len(),
        b < adj.len(),
{
    let p = choose|p: Seq<usize>| #[trigger] is_walk(adj, p) && p[0] == a && p.last() == b;
    let l = p.len() - 2;
    assert(has_edge(adj, p[0int], p[0int + 1]));
    assert(has_edge(adj, p[l], p[l + 1]));
    let k = choose|k: int| 0 <= k < adj[p[l] as int].len() && adj[p[l] as int][k] == b;
}

/// A graph of `n` nodes has exactly the ids `0..n`, in ascending order: what `node_ids`
/// returns for the graph that `new(n)` builds.
pub proof fn law_node_ids_of_size<T>(g: GraphView<T>, n: nat)
    requires
        g.wf(),
        g.size() == n,
        n <= usize::MAX,
    ensures
        id_range(g.size()).len() == n,
        forall|i: int| 0 <= i < n ==> id_range(g.size())[i] == i,
{
}

/// Adding an edge twice leaves the successor sets as adding it once did.
pub proof fn law_add_edge_idempotent(adj: Seq<Seq<usize>>, v: usize, w: usize)
    ensures
        with_edge(with_edge(adj, v, w), v, w) == with_edge(adj, v, w),
{
    let once = with_edge(adj, v, w);
    if v < adj.len() && w < adj.len() && !adj[v as int].contains(w) {
        assert(once[v as int] == adj[v as int].push(w));
        assert(once[v as int][adj[v as int].len() as int] == w);
        assert(once[v as int].contains(w));
    }
}

/// A duplicate-free list of ids below `n` has at most `n` entries.
pub proof fn lemma_bounded_ids_len(s: Seq<usize>, n: nat)
    requires
        s.no_duplicates(),
        forall|i: int| 0 <= i < s.len() ==> (#[trigger] s[i]) < n,
    ensures
        s.len() <= n,
{
    let ids = Set::new(|x: usize| x < n);
    assert(ids =~= Set::new(|x: usize| 0 <= x < n));
    lemma_usize_range_finite(n);
    s.unique_seq_to_set();
    assert(s.to_set().subset_of(ids));
    vstd::set_lib::lemma_len_subset(s.to_set(), ids);
}

proof fn lemma_usize_range_finite(n: nat)
    ensures
        Set::new(|x: usize| x < n).finite(),
        Set::new(|x: usize| x < n).len() <= n,
    decreases n,
{
    let ids = Set::new(|x: usize| x < n);
    if n == 0 {
        assert(ids =~= Set::empty());
    } else {
        lemma_usize_range_finite((n - 1) as nat);
        let prev = Set::new(|x: usize| x < (n - 1) as nat);
        if n - 1 <= usize::MAX {
            assert(ids =~= prev.insert((n - 1) as usize));
        } else {
            assert(ids =~= prev);
        }
    }
}

/// The ids `0..n` in ascending order.
pub open spec fn id_range(n: nat) -> Seq<usize> {
    Seq::new(n, |i: int| i as usize)
}

/// The mathematical content of a graph: successor lists and node payloads, both indexed by id.
pub ghost struct GraphView<T> {
    pub adj: Seq<Seq<usize>>,
    pub nodes: Seq<T>,
}

impl<T> GraphView<T> {
    pub open spec fn wf(self) -> bool {
        &&& self.adj.len() == self.nodes.len()
        &&& adj_wf(self.adj)
    }

    pub open spec fn size(self) -> nat {
        self.nodes.len()
    }
}

/// A directed graph over an arena of node payloads. Node ids are dense, start at 0, and are
/// never reused or removed; each id has a duplicate-free set of successor ids.
pub struct Graph<T> {
    adjacencies: Vec<Vec<usize>>,
    nodes: Vec<T>,
}

impl<T> View for Graph<T> {
    type V = GraphView<T>;

    closed spec fn view(&self) -> GraphView<T> {
        GraphView { adj: self.adjacencies@.map_values(|a: Vec<usize>| a@), nodes: self.nodes@ }
    }
}

impl<T> Graph<T> {
    /// A graph with no nodes.
    pub fn empty() -> (g: Graph<T>)
        ensures
            g@.wf(),
            g@.adj == Seq::<Seq<usize>>::empty(),
            g@.nodes == Seq::<T>::empty(),
    {
        let g = Graph { adjacencies: Vec::new(), nodes: Vec::new() };
        assert(g@.adj =~= Seq::<Seq<usize>>::empty());
        g
    }

    /// Appends a node with no successors and returns its id.
    pub fn add_node(&mut self, payload: T) -> (id: usize)
        requires
            old(self)@.wf(),
            old(self)@.size() < usize::MAX,
        ensures
            final(self)@.wf(),
            id == old(self)@.size(),
            final(self)@.adj == old(self)@.adj.push(Seq::<usize>::empty()),
            final(self)@.nodes == old(self)@.nodes.push(payload),
    {
        let id = self.nodes.len();
        self.nodes.push(payload);
        self.adjacencies.push(Vec::new());
        assert(self@.adj =~= old(self)@.adj.push(Seq::<usize>::empty()));
        proof {
            let adj = self@.adj;
            assert forall|v: int| 0 <= v < adj.len() implies {
                &&& (#[trigger] adj[v]).no_duplicates()
                &&& forall|j: int| 0 <= j < adj[v].len() ==> (#[trigger] adj[v][j]) < adj.len()
            } by {
                if v < id {
                    assert(adj[v] == old(self)@.adj[v]);
                }
            }
        }
        id
    }

    /// Number of nodes.
    pub fn size(&self) -> (n: usize)
        requires
            self@.wf(),
        ensures
            n == self@.size(),
            n == self@.adj.len(),
    {
        self.nodes.len()
    }

    /// All node ids, `0..size()`, ascending.
    pub fn node_ids(&self) -> (ids: Vec<usize>)
        requires
            self@.wf(),
        ensures
            ids@ == id_range(self@.size()),
    {
        let n = self.nodes.len();
        let mut ids: Vec<usize> = Vec::new();
        for i in 0..n
            invariant
                n == self@.size(),
                ids@ == id_range(i as nat),
        {
            ids.push(i);
            assert(ids@ =~= id_range((i + 1) as nat));
        }
        ids
    }

    /// Adds the edge `v -> w`; does nothing when either id is invalid or the edge is present.
    pub fn add_edge(&mut self, v: usize, w: usize)
        requires
            old(self)@.wf(),
        ensures
            final(self)@.wf(),
            final(self)@.adj == with_edge(old(self)@.adj, v, w),
            final(self)@.nodes == old(self)@.nodes,
    {
        let n = self.adjacencies.len();
        if v < n && w < n {
            let present = contains_id(&self.adjacencies[v], w);
            if !present {
                self.adjacencies[v].push(w);
                proof {
                    let adj = self@.adj;
                    let oadj = old(self)@.adj;
                    assert(adj =~= with_edge(oadj, v, w));
                    assert forall|u: int| 0 <= u < adj.len() implies {
                        &&& (#[trigger] adj[u]).no_duplicates()
                        &&& forall|j: int| 0 <= j < adj[u].len() ==> (#[trigger] adj[u][j]) < adj.len()
                    } by {
                        if u == v {
                            assert(adj[u] == oadj[u].push(w));
                            assert forall|a: int, b: int| 0 <= a < b < adj[u].len() implies adj[u][a] != adj[u][b] by {
                                if b == adj[u].len() - 1 {
                                    assert(oadj[u][a] == adj[u][a]);
                                }
                            }
                            assert forall|j: int| 0 <= j < adj[u].len() implies (#[trigger] adj[u][j]) < adj.len() by {
                                if j < oadj[u].len() {
                                    assert(adj[u][j] == oadj[u][j]);
                                }
                            }
                        }
                    }
                }
                return;
            }
        }
        assert(self@.adj =~= with_edge(old(self)@.adj, v, w));
    }

    /// Whether the edge `u -> w` is present, or `None` when `u` is not a node.
    pub fn adj_test(&self, u: usize, w: usize) -> (r: Option<bool>)
        requires
            self@.wf(),
        ensures
            u < self@.size() ==> r == Some(has_edge(self@.adj, u, w)),
            u >= self@.size() ==> r is None,
    {
        if u < self.adjacencies.len() {
            Some(contains_id(&self.adjacencies[u], w))
        } else {
            None
        }
    }

    /// The successor list of `v`, in the order the edges were added.
    pub fn successors(&self, v: usize) -> (r: &Vec<usize>)
        requires
            self@.wf(),
            v < self@.size(),
        ensures
            r@ == self@.adj[v as int],
    {
        &self.adjacencies[v]
    }

    /// A copy of the successor set of `n`, or `None` when `n` is not a node.
    pub fn adj_to(&self, n: usize) -> (r: Option<HashSet<usize>>)
        requires
            self@.wf(),
        ensures
            n < self@.size() ==> r is Some && r->0@ == self@.adj[n as int].to_set(),
            n >= self@.size() ==> r is None,
    {
        if n >= self.adjacencies.len() {
            return None;
        }
        let list = &self.adjacencies[n];
        let mut set: HashSet<usize> = HashSet::new();
        for i in 0..list.len()
            invariant
                list@ == self@.adj[n as int],
                set@ == list@.take(i as int).to_set(),
        {
            set.insert(list[i]);
            assert(list@.take(i + 1) == list@.take(i as int).push(list@[i as int]));
            proof {
                list@.take(i as int).lemma_push_to_set_commute(list@[i as int]);
            }
        }
        assert(list@.take(list.len() as int) == list@);
        Some(set)
    }

    /// The payload of node `id`, or `None` when `id` is not a node.
    pub fn get_node(&self, id: usize) -> (r: Option<&T>)
        requires
            self@.wf(),
        ensures
            id < self@.size() ==> r == Some(&self@.nodes[id as int]),
            id >= self@.size() ==> r is None,
    {
        if id < self.nodes.len() {
            Some(&self.nodes[id])
        } else {
            None
        }
    }

    /// Mutable access to the payload of node `id`, or `None` when `id` is not a node. The
    /// edges stay as they are.
    pub fn get_node_mut(&mut self, id: usize) -> (r: Option<&mut T>)
        requires
            old(self)@.wf(),
        ensures
            id >= old(self)@.size() ==> r.is_none() && final(self)@ == old(self)@,
            id < old(self)@.size() ==> r.is_some() && *r.unwrap() == old(self)@.nodes[id as int]
                && final(self)@.nodes == old(self)@.nodes.update(id as int, *final(r.unwrap()))
                && final(self)@.adj == old(self)@.adj,
    {
        if id < self.nodes.len() {
            Some(&mut self.nodes[id])
        } else {
            None
        }
    }
}

/// Linear membership test on an id list.
pub fn contains_id(list: &Vec<usize>, x: usize) -> (r: bool)
    ensures
        r == list@.contains(x),
{
    for i in 0..list.len()
        invariant
            forall|j: int| 0 <= j < i ==> list@[j] != x,
    {
        if list[i] == x {
            return true;
        }
    }
    false
}

} // verus!
