use vstd::prelude::*;
use crate::graph::{Graph, GraphView, has_edge, is_walk, reachable, with_edge, id_range, lemma_with_edge, edges_within};
use crate::search::{walk_listed, sorted};
use crate::node::{Formula, FormulaState};
use crate::search::{GraphSearch, sorted_walk_nodes};
use crate::text::negates;
use crate::rules::{atom, atom_of};

verus! {

broadcast use vstd::seq::Seq::lemma_filter_push;

/// The proof tree: formula nodes, each the child of the node it was expanded below. Node 0
/// is the root, and every node has a larger id than its parent.
pub type Tableau = Graph<Formula>;

/// `b` is `a` with a negation sign in front.
pub open spec fn is_negation_of(a: Seq<char>, b: Seq<char>) -> bool {
    b == seq!['¬'] + a
}

/// Nodes `x` and `y` are evaluated at the same world, `x`'s formula is an atom and `y`'s is
/// its negation: a literal and its syntactic negation.
pub open spec fn contradictory(nodes: Seq<Formula>, x: usize, y: usize) -> bool {
    &&& x < nodes.len()
    &&& y < nodes.len()
    &&& nodes[x as int].world_id() == nodes[y as int].world_id()
    &&& atom_of(nodes[x as int].text()) is Some
    &&& is_negation_of(nodes[x as int].text(), nodes[y as int].text())
}

/// The nodes `p` hold a formula and its negation at one world.
pub open spec fn has_contradiction(nodes: Seq<Formula>, p: Seq<usize>) -> bool {
    exists|i: int, j: int| 0 <= i < p.len() && 0 <= j < p.len() && #[trigger] contradictory(nodes, p[i], p[j])
}

/// `t1` is `t0` after contradiction detection: edges, formulas and worlds are kept, and each
/// open terminal whose branch holds a literal and its negation at one world is closed.
pub open spec fn contradictions_closed(t0: GraphView<Formula>, t1: GraphView<Formula>) -> bool {
    &&& t1.adj == t0.adj
    &&& t1.nodes.len() == t0.nodes.len()
    &&& forall|k: int|
        0 <= k < t0.nodes.len() ==> (#[trigger] t1.nodes[k]).text() == t0.nodes[k].text()
            && t1.nodes[k].world_id() == t0.nodes[k].world_id()
    &&& exists|bs: Seq<Seq<usize>>|
        #[trigger] branches_of(t0, bs) && forall|k: usize|
            k < t0.nodes.len() ==> (#[trigger] t1.nodes[k as int]).status() == closed_after(t0, bs, k)
}

/// `t` lies at or below `root`, has no children, and is not closed.
pub open spec fn is_terminal_unclosed(g: GraphView<Formula>, root: usize, t: usize) -> bool {
    &&& t < g.size()
    &&& t == root || reachable(g.adj, root, t)
    &&& g.adj[t as int].len() == 0
    &&& g.nodes[t as int].status() != FormulaState::Closed
}

/// The open terminals at or below `root`, ascending.
pub open spec fn terminals_from(g: GraphView<Formula>, root: usize) -> Seq<usize> {
    id_range(g.size()).filter(|t: usize| is_terminal_unclosed(g, root, t))
}

/// The active nodes, ascending.
pub open spec fn active_ids(g: GraphView<Formula>) -> Seq<usize> {
    id_range(g.size()).filter(|i: usize| g.nodes[i as int].status() == FormulaState::Active)
}

/// `p` is the branch that ends at `t`: the nodes on the way from the root to `t`, ascending.
pub open spec fn is_branch(adj: Seq<Seq<usize>>, t: usize, p: Seq<usize>) -> bool {
    if t == 0 {
        p == seq![0usize]
    } else {
        sorted_walk_nodes(adj, 0, t, p)
    }
}

/// Every edge leads from a smaller id to a larger one, and no node has two parents: the shape
/// that building a tableau by `new` and `new_node_from` keeps.
pub open spec fn tree_shaped(adj: Seq<Seq<usize>>) -> bool {
    &&& forall|p: usize, c: usize| #[trigger] has_edge(adj, p, c) ==> p < c
    &&& forall|p1: usize, p2: usize, c: usize|
        #[trigger] has_edge(adj, p1, c) && #[trigger] has_edge(adj, p2, c) ==> p1 == p2
}

/// `bs` holds, for each open terminal, its branch.
pub open spec fn branches_of(g: GraphView<Formula>, bs: Seq<Seq<usize>>) -> bool {
    let ts = terminals_from(g, 0);
    &&& bs.len() == ts.len()
    &&& forall|i: int| 0 <= i < bs.len() ==> #[trigger] is_branch(g.adj, ts[i], bs[i])
}

/// The node states after contradiction detection: an open terminal whose branch `bs[i]`
/// holds a contradiction is closed; every other node keeps its state.
pub open spec fn closed_after(g: GraphView<Formula>, bs: Seq<Seq<usize>>, k: usize) -> FormulaState {
    let ts = terminals_from(g, 0);
    if exists|i: int| 0 <= i < ts.len() && ts[i] == k && #[trigger] has_contradiction(g.nodes, bs[i]) {
        FormulaState::Closed
    } else {
        g.nodes[k as int].status()
    }
}

/// A closed node is neither active nor an open terminal: once contradiction detection closes
/// a branch's terminal, `active_nodes` and `unclosed_branches` leave it out.
pub proof fn law_closed_node_leaves_open_sets(g: GraphView<Formula>, k: usize)
    requires
        k < g.size(),
        g.nodes[k as int].status() == FormulaState::Closed,
    ensures
        !active_ids(g).contains(k),
        !terminals_from(g, 0).contains(k),
{
    let pa = |i: usize| g.nodes[i as int].status() == FormulaState::Active;
    let pt = |t: usize| is_terminal_unclosed(g, 0, t);
    if active_ids(g).contains(k) {
        let j = choose|j: int| 0 <= j < active_ids(g).len() && active_ids(g)[j] == k;
        id_range(g.size()).lemma_filter_pred(pa, j);
    }
    if terminals_from(g, 0).contains(k) {
        let j = choose|j: int| 0 <= j < terminals_from(g, 0).len() && terminals_from(g, 0)[j] == k;
        id_range(g.size()).lemma_filter_pred(pt, j);
    }
}

/// In a tree-shaped tableau, contradiction detection closes an open terminal whose branch
/// holds a literal and its negation at one world; the terminal is then neither active nor
/// among the open terminals.
pub proof fn law_contradiction_closes_terminal(
    t0: GraphView<Formula>,
    t1: GraphView<Formula>,
    t: usize,
    b: Seq<usize>,
)
    requires
        tree_shaped(t0.adj),
        contradictions_closed(t0, t1),
        terminals_from(t0, 0).contains(t),
        is_branch(t0.adj, t, b),
        has_contradiction(t0.nodes, b),
    ensures
        t < t1.nodes.len(),
        t1.nodes[t as int].status() == FormulaState::Closed,
        !active_ids(t1).contains(t),
        !terminals_from(t1, 0).contains(t),
{
    let ts = terminals_from(t0, 0);
    let i = choose|i: int| 0 <= i < ts.len() && ts[i] == t;
    let pred = |x: usize| is_terminal_unclosed(t0, 0, x);
    id_range(t0.size()).lemma_filter_pred(pred, i);
    let bs = choose|bs: Seq<Seq<usize>>|
        #[trigger] branches_of(t0, bs) && forall|k: usize|
            k < t0.nodes.len() ==> (#[trigger] t1.nodes[k as int]).status() == closed_after(t0, bs, k);
    assert(is_branch(t0.adj, ts[i], bs[i]));
    law_branch_unique(t0.adj, t, bs[i], b);
    assert(has_contradiction(t0.nodes, bs[i]));
    assert(t1.nodes[t as int].status() == closed_after(t0, bs, t));
    law_closed_node_leaves_open_sets(t1, t);
}

/// In a tree-shaped tableau each terminal has one branch: the contracts of
/// `unclosed_branches` and `find_contradictions` then name the branches exactly.
pub proof fn law_branch_unique(adj: Seq<Seq<usize>>, t: usize, p1: Seq<usize>, p2: Seq<usize>)
    requires
        tree_shaped(adj),
        is_branch(adj, t, p1),
        is_branch(adj, t, p2),
    ensures
        p1 == p2,
{
    if t != 0 {
        let q1 = choose|q: Seq<usize>| #[trigger] walk_listed(adj, 0, t, p1, q);
        let q2 = choose|q: Seq<usize>| #[trigger] walk_listed(adj, 0, t, p2, q);
        lemma_tree_walks_equal(adj, q1, q2);
        let leq = |a: usize, b: usize| a <= b;
        assert(vstd::relations::sorted_by(p1, leq) && vstd::relations::sorted_by(p2, leq)) by {
            assert(sorted(p1) && sorted(p2));
        }
        vstd::seq_lib::lemma_sorted_unique(p1, p2, leq);
    }
}

/// Ids strictly increase along a walk of a tree-shaped graph.
proof fn lemma_walk_increases(adj: Seq<Seq<usize>>, q: Seq<usize>, m: int)
    requires
        tree_shaped(adj),
        is_walk(adj, q),
        1 <= m < q.len(),
    ensures
        q[0] < q[m],
    decreases m,
{
    assert(has_edge(adj, q[m - 1], q[(m - 1) + 1]));
    if m > 1 {
        lemma_walk_increases(adj, q, m - 1);
    }
}

/// Two walks from the root to one node of a tree-shaped graph are the same walk.
proof fn lemma_tree_walks_equal(adj: Seq<Seq<usize>>, q1: Seq<usize>, q2: Seq<usize>)
    requires
        tree_shaped(adj),
        is_walk(adj, q1),
        is_walk(adj, q2),
        q1[0] == 0,
        q2[0] == 0,
        q1.last() == q2.last(),
    ensures
        q1 == q2,
{
    let n1 = q1.len() as int;
    let n2 = q2.len() as int;
    // Walking back from the common end, both walks pass the same nodes; the shorter one would
    // reach the root while the longer one is still above it.
    if n1 < n2 {
        lemma_tree_walks_agree_back(adj, q1, q2, n1 - 1);
        lemma_walk_increases(adj, q2, n2 - n1);
    } else if n2 < n1 {
        lemma_tree_walks_agree_back(adj, q1, q2, n2 - 1);
        lemma_walk_increases(adj, q1, n1 - n2);
    }
    assert(n1 == n2);
    assert forall|i: int| 0 <= i < n1 implies #[trigger] q1[i] == q2[i] by {
        lemma_tree_walks_agree_back(adj, q1, q2, n1 - 1 - i);
    }
    assert(q1 =~= q2);
}

proof fn lemma_tree_walks_agree_back(adj: Seq<Seq<usize>>, q1: Seq<usize>, q2: Seq<usize>, k: int)
    requires
        tree_shaped(adj),
        is_walk(adj, q1),
        is_walk(adj, q2),
        q1[0] == 0,
        q2[0] == 0,
        q1.last() == q2.last(),
        0 <= k < q1.len(),
        0 <= k < q2.len(),
    ensures
        q1[q1.len() - 1 - k] == q2[q2.len() - 1 - k],
    decreases k,
{
    if k > 0 {
        lemma_tree_walks_agree_back(adj, q1, q2, k - 1);
        let a = q1.len() - 1 - k;
        let b = q2.len() - 1 - k;
        assert(has_edge(adj, q1[a], q1[a + 1]));
        assert(has_edge(adj, q2[b], q2[b + 1]));
    }
}

proof fn lemma_id_range_push(i: nat)
    ensures
        id_range(i + 1) == id_range(i).push(i as usize),
{
    assert(id_range(i + 1) =~= id_range(i).push(i as usize));
}

impl Graph<Formula> {
    /// The tableau of the input formulas: one active node per formula, all at world 0, each
    /// the only child of the one before.
    pub fn new(formulas: Vec<String>) -> (g: Tableau)
        ensures
            g@.wf(),
            g@.size() == formulas.len(),
            forall|i: int|
                0 <= i < formulas.len() ==> {
                    &&& (#[trigger] g@.nodes[i]).text() == formulas@[i]@
                    &&& g@.nodes[i].world_id() == 0
                    &&& g@.nodes[i].status() == FormulaState::Active
                    &&& g@.adj[i] == if i + 1 < formulas.len() {
                        seq![(i + 1) as usize]
                    } else {
                        Seq::<usize>::empty()
                    }
                },
            tree_shaped(g@.adj),
    {
        let n = formulas.len();
        let mut g: Tableau = Graph::empty();
        let mut i: usize = 0;
        for f in it: formulas
            invariant
                g@.wf(),
                n == formulas.len(),
                it.seq() == formulas@,
                g@.size() == it.index(),
                forall|k: int|
                    0 <= k < it.index() ==> {
                        &&& (#[trigger] g@.nodes[k]).text() == formulas@[k]@
                        &&& g@.nodes[k].world_id() == 0
                        &&& g@.nodes[k].status() == FormulaState::Active
                        &&& g@.adj[k] == if k + 1 < it.index() {
                            seq![(k + 1) as usize]
                        } else {
                            Seq::<usize>::empty()
                        }
                    },
        {
            let ghost gb = g@;
            let id = g.add_node(Formula::new(f, 0));
            if id > 0 {
                proof {
                    let _ = gb.nodes[id - 1];
                    assert(gb.adj[id - 1] == Seq::<usize>::empty());
                    assert(g@.adj[id - 1] == gb.adj[id - 1]);
                    lemma_with_edge(g@.adj, (id - 1) as usize, id);
                }
                g.add_edge(id - 1, id);
                proof {
                    assert(g@.adj[id - 1] =~= seq![id]);
                }
            }
            proof {
                assert forall|k: int| 0 <= k < id + 1 implies {
                    &&& (#[trigger] g@.nodes[k]).text() == formulas@[k]@
                    &&& g@.nodes[k].world_id() == 0
                    &&& g@.nodes[k].status() == FormulaState::Active
                    &&& g@.adj[k] == if k + 1 < id + 1 {
                        seq![(k + 1) as usize]
                    } else {
                        Seq::<usize>::empty()
                    }
                } by {
                    if k < id {
                        assert(g@.nodes[k] == gb.nodes[k]);
                    }
                }
            }
        }
        proof {
            let adj = g@.adj;
            assert forall|p: usize, c: usize| #[trigger] has_edge(adj, p, c) implies c == p + 1 by {
                let _ = g@.nodes[p as int];
                if p + 1 < n {
                    assert(adj[p as int] == seq![(p + 1) as usize]);
                } else {
                    assert(adj[p as int] == Seq::<usize>::empty());
                }
            }
        }
        g
    }

    /// Appends an active node for `formula` at `world` as a new child of `parent` (unattached
    /// when `parent` is not a node). The new node's id is larger than every existing id.
    pub fn new_node_from(&mut self, parent: usize, formula: String, world: usize)
        requires
            old(self)@.wf(),
            old(self)@.size() < usize::MAX,
        ensures
            final(self)@.wf(),
            final(self)@.adj == if parent < old(self)@.size() {
                with_edge(old(self)@.adj.push(Seq::<usize>::empty()), parent, old(self)@.size() as usize)
            } else {
                old(self)@.adj.push(Seq::<usize>::empty())
            },
            tree_shaped(old(self)@.adj) ==> tree_shaped(final(self)@.adj),
            edges_within(old(self)@.adj, final(self)@.adj),
            parent < old(self)@.size() ==> has_edge(final(self)@.adj, parent, old(self)@.size() as usize),
            final(self)@.nodes.len() == old(self)@.nodes.len() + 1,
            final(self)@.nodes.take(old(self)@.size() as int) == old(self)@.nodes,
            final(self)@.nodes.last().text() == formula@,
            final(self)@.nodes.last().world_id() == world,
            final(self)@.nodes.last().status() == FormulaState::Active,
    {
        let ghost nb = self@.nodes;
        let ghost a0 = self@.adj;
        let id = self.add_node(Formula::new(formula, world));
        let ghost a1 = self@.adj;
        if parent < id {
            self.add_edge(parent, id);
        }
        assert(self@.nodes.take(id as int) =~= nb);
        proof {
            lemma_with_edge(a1, parent, id);
            assert forall|a: usize, b: usize| #[trigger] has_edge(a0, a, b) implies has_edge(self@.adj, a, b) by {
                assert(a1[a as int] == a0[a as int]);
            }
            if tree_shaped(a0) {
                lemma_with_edge(a1, parent, id);
                assert forall|a: usize, b: usize| has_edge(a1, a, b) <==> #[trigger] has_edge(a0, a, b) by {
                    if a < id {
                        assert(a1[a as int] == a0[a as int]);
                    }
                }
                assert forall|a: usize, b: usize| #[trigger] has_edge(a0, a, b) implies b < id by {
                    assert(a0[a as int].contains(b));
                    let k = choose|k: int| 0 <= k < a0[a as int].len() && a0[a as int][k] == b;
                }
                let a2 = self@.adj;
                assert forall|p: usize, c: usize| #[trigger] has_edge(a2, p, c) implies p < c by {
                    if !(p == parent && c == id) {
                        assert(has_edge(a0, p, c));
                    }
                }
                assert forall|p1: usize, p2: usize, c: usize|
                    #[trigger] has_edge(a2, p1, c) && #[trigger] has_edge(a2, p2, c) implies p1 == p2 by {
                    if c != id {
                        assert(has_edge(a0, p1, c) && has_edge(a0, p2, c));
                    } else {
                        if p1 != parent {
                            assert(has_edge(a0, p1, c));
                        }
                        if p2 != parent {
                            assert(has_edge(a0, p2, c));
                        }
                    }
                }
            }
        }
    }

    /// The ids of the active nodes, ascending, or `None` when there are none.
    pub fn active_nodes(&self) -> (r: Option<Vec<usize>>)
        requires
            self@.wf(),
        ensures
            match r {
                None => active_ids(self@).len() == 0,
                Some(v) => v@ == active_ids(self@) && v@.len() > 0,
            },
    {
        let ghost g = self@;
        let ghost pred = |i: usize| g.nodes[i as int].status() == FormulaState::Active;
        let n = self.size();
        let mut out: Vec<usize> = Vec::new();
        for i in 0..n
            invariant
                self@ == g,
                g.wf(),
                n == g.size(),
                pred == (|i: usize| g.nodes[i as int].status() == FormulaState::Active),
                out@ == id_range(i as nat).filter(pred),
        {
            proof {
                lemma_id_range_push(i as nat);
            }
            match self.get_node(i) {
                Some(node) => {
                    if *node.state() == FormulaState::Active {
                        out.push(i);
                    }
                },
                None => {},
            }
        }
        if out.len() == 0 {
            None
        } else {
            Some(out)
        }
    }

    /// The lowest active id, or `None` when no node is active.
    pub fn first_active_node(&self) -> (r: Option<usize>)
        requires
            self@.wf(),
        ensures
            active_ids(self@).len() == 0 ==> r is None,
            active_ids(self@).len() > 0 ==> r == Some(active_ids(self@)[0]),
    {
        match self.active_nodes() {
            Some(v) => Some(v[0]),
            None => None,
        }
    }

    /// The open terminals at or below `root`, ascending, or `None` when `root` is not a node
    /// or there are none.
    pub fn terminal_unclosed(&self, root: usize) -> (r: Option<Vec<usize>>)
        requires
            self@.wf(),
        ensures
            match r {
                None => root >= self@.size() || terminals_from(self@, root).len() == 0,
                Some(v) => root < self@.size() && v@ == terminals_from(self@, root) && v@.len() > 0,
            },
            forall|i: int|
                0 <= i < terminals_from(self@, root).len() ==> is_terminal_unclosed(
                    self@,
                    root,
                    #[trigger] terminals_from(self@, root)[i],
                ),
    {
        proof {
            let pred = |t: usize| is_terminal_unclosed(self@, root, t);
            assert forall|i: int| 0 <= i < terminals_from(self@, root).len() implies is_terminal_unclosed(
                self@,
                root,
                #[trigger] terminals_from(self@, root)[i],
            ) by {
                id_range(self@.size()).lemma_filter_pred(pred, i);
            }
        }
        let ghost g = self@;
        let ghost pred = |t: usize| is_terminal_unclosed(g, root, t);
        let n = self.size();
        if root >= n {
            return None;
        }
        let search = GraphSearch::bfs(self, root);
        let mut out: Vec<usize> = Vec::new();
        for t in 0..n
            invariant
                self@ == g,
                g.wf(),
                n == g.size(),
                root < n,
                search.searched(g.adj, root),
                pred == (|t: usize| is_terminal_unclosed(g, root, t)),
                out@ == id_range(t as nat).filter(pred),
        {
            proof {
                lemma_id_range_push(t as nat);
            }
            let below = t == root || search.has_path_to(t);
            if below && self.successors(t).len() == 0 {
                match self.get_node(t) {
                    Some(node) => {
                        if *node.state() != FormulaState::Closed {
                            out.push(t);
                        }
                    },
                    None => {},
                }
            }
        }
        if out.len() == 0 {
            None
        } else {
            Some(out)
        }
    }

    /// For each open terminal (ascending), its branch: the ids from the root down to it, in
    /// ascending order. `None` when every branch is closed.
    pub fn unclosed_branches(&self) -> (r: Option<Vec<Vec<usize>>>)
        requires
            self@.wf(),
        ensures
            match r {
                None => terminals_from(self@, 0).len() == 0,
                Some(bs) => bs@.len() > 0 && branches_of(self@, bs@.map_values(|b: Vec<usize>| b@)),
            },
    {
        let ghost g = self@;
        let ts = match self.terminal_unclosed(0) {
            Some(ts) => ts,
            None => {
                return None;
            },
        };
        let mut out: Vec<Vec<usize>> = Vec::new();
        for i in 0..ts.len()
            invariant
                self@ == g,
                g.wf(),
                ts@ == terminals_from(g, 0),
                out@.len() == i,
                forall|k: int| 0 <= k < i ==> #[trigger] is_branch(g.adj, ts@[k], out@[k]@),
        {
            let t = ts[i];
            assert(is_terminal_unclosed(g, 0, t)) by {
                assert(ts@.contains(t));
            }
            if t == 0 {
                let mut p: Vec<usize> = Vec::new();
                p.push(0);
                assert(p@ =~= seq![0usize]);
                out.push(p);
            } else {
                match GraphSearch::shortest_path(self, 0, t) {
                    Some(p) => out.push(p),
                    None => {
                        return None;
                    },
                }
            }
        }
        let ghost bs = out@.map_values(|b: Vec<usize>| b@);
        assert forall|k: int| 0 <= k < bs.len() implies #[trigger] is_branch(g.adj, ts@[k], bs[k]) by {
            assert(is_branch(g.adj, ts@[k], out@[k]@));
        }
        Some(out)
    }

    /// Whether nodes `x` and `y` hold a formula and its negation at one world.
    fn contradicts(&self, x: usize, y: usize) -> (r: bool)
        requires
            self@.wf(),
        ensures
            r == contradictory(self@.nodes, x, y),
    {
        match (self.get_node(x), self.get_node(y)) {
            (Some(a), Some(b)) => a.world() == b.world() && atom(a.formula().as_str()).is_some() && negates(
                a.formula().as_str(),
                b.formula().as_str(),
            ),
            _ => false,
        }
    }

    /// Whether the nodes `p` hold a formula and its negation at one world.
    fn branch_contradicts(&self, p: &Vec<usize>) -> (r: bool)
        requires
            self@.wf(),
        ensures
            r == has_contradiction(self@.nodes, p@),
    {
        for i in 0..p.len()
            invariant
                self@.wf(),
                forall|a: int, b: int| 0 <= a < i && 0 <= b < p@.len() ==> !#[trigger] contradictory(self@.nodes, p@[a], p@[b]),
        {
            for j in 0..p.len()
                invariant
                    self@.wf(),
                    i < p@.len(),
                    forall|a: int, b: int| 0 <= a < i && 0 <= b < p@.len() ==> !#[trigger] contradictory(self@.nodes, p@[a], p@[b]),
                    forall|b: int| 0 <= b < j ==> !#[trigger] contradictory(self@.nodes, p@[i as int], p@[b]),
            {
                if self.contradicts(p[i], p[j]) {
                    return true;
                }
            }
        }
        false
    }

    /// Closes the terminal node of every open branch that holds a formula and its negation at
    /// one world. Texts, worlds and edges stay as they are.
    pub fn find_contradictions(&mut self)
        requires
            old(self)@.wf(),
        ensures
            final(self)@.wf(),
            contradictions_closed(old(self)@, final(self)@),
    {
        let ghost g = self@;
        let ts = match self.terminal_unclosed(0) {
            Some(ts) => ts,
            None => {
                proof {
                    let bs = Seq::<Seq<usize>>::empty();
                    assert(branches_of(g, bs));
                    assert forall|k: usize| k < g.nodes.len() implies (#[trigger] self@.nodes[k as int]).status()
                        == closed_after(g, bs, k) by {}
                }
                return;
            },
        };
        let bs = match self.unclosed_branches() {
            Some(bs) => bs,
            None => {
                return;
            },
        };
        let ghost bsv = bs@.map_values(|b: Vec<usize>| b@);
        for i in 0..bs.len()
            invariant
                self@.wf(),
                self@.adj == g.adj,
                self@.nodes.len() == g.nodes.len(),
                ts@ == terminals_from(g, 0),
                branches_of(g, bsv),
                bsv == bs@.map_values(|b: Vec<usize>| b@),
                forall|k: int|
                    0 <= k < g.nodes.len() ==> (#[trigger] self@.nodes[k]).text() == g.nodes[k].text()
                        && self@.nodes[k].world_id() == g.nodes[k].world_id(),
                forall|k: int|
                    0 <= k < g.nodes.len() ==> (#[trigger] self@.nodes[k]).status() == if exists|a: int|
                        0 <= a < i && ts@[a] == k && #[trigger] has_contradiction(g.nodes, bsv[a]) {
                        FormulaState::Closed
                    } else {
                        g.nodes[k].status()
                    },
        {
            let ghost before = self@.nodes;
            proof {
                assert forall|x: usize, y: usize| #[trigger] contradictory(self@.nodes, x, y) == contradictory(g.nodes, x, y) by {
                    if x < g.nodes.len() && y < g.nodes.len() {
                        assert(self@.nodes[x as int].text() == g.nodes[x as int].text());
                        assert(self@.nodes[y as int].text() == g.nodes[y as int].text());
                    }
                }
                let p = bs@[i as int]@;
                assert(p == bsv[i as int]);
                if has_contradiction(g.nodes, p) {
                    let (a, b) = choose|a: int, b: int| 0 <= a < p.len() && 0 <= b < p.len() && #[trigger] contradictory(g.nodes, p[a], p[b]);
                    assert(contradictory(self@.nodes, p[a], p[b]));
                }
                if has_contradiction(self@.nodes, p) {
                    let (a, b) = choose|a: int, b: int| 0 <= a < p.len() && 0 <= b < p.len() && #[trigger] contradictory(self@.nodes, p[a], p[b]);
                    assert(contradictory(g.nodes, p[a], p[b]));
                }
            }
            let hit = self.branch_contradicts(&bs[i]);
            if hit {
                let t = ts[i];
                match self.get_node_mut(t) {
                    Some(node) => node.close(),
                    None => {},
                }
            }
            proof {
                assert forall|k: int| 0 <= k < g.nodes.len() implies (#[trigger] self@.nodes[k]).status() == if exists|a: int|
                    0 <= a < i + 1 && ts@[a] == k && #[trigger] has_contradiction(g.nodes, bsv[a]) {
                    FormulaState::Closed
                } else {
                    g.nodes[k].status()
                } by {
                    if hit && k == ts@[i as int] {
                        assert(0 <= i < i + 1 && ts@[i as int] == k && has_contradiction(g.nodes, bsv[i as int]));
                    } else {
                        assert(self@.nodes[k] == before[k]);
                        if exists|a: int| 0 <= a < i + 1 && ts@[a] == k && #[trigger] has_contradiction(g.nodes, bsv[a]) {
                            let a = choose|a: int| 0 <= a < i + 1 && ts@[a] == k && #[trigger] has_contradiction(g.nodes, bsv[a]);
                            if a == i {
                                assert(!hit);
                            }
                        }
                    }
                }
                assert forall|k: int| 0 <= k < g.nodes.len() implies (#[trigger] self@.nodes[k]).text() == g.nodes[k].text()
                    && self@.nodes[k].world_id() == g.nodes[k].world_id() by {
                    assert(before[k].text() == g.nodes[k].text());
                }
            }
        }
        proof {
            assert forall|k: usize| k < g.nodes.len() implies (#[trigger] self@.nodes[k as int]).status()
                == closed_after(g, bsv, k) by {}
        }
    }
}

} // verus!
