use vstd::prelude::*;
use crate::graph::{GraphView, edges_within, has_edge, id_range, with_edge};
use crate::modal_config::ModalOptions;
use crate::node::{Formula, FormulaState, World};
use crate::rules::{Rule, RuleSpec, rule_for, rule_of, atom, atom_of};
use crate::tableau::{Tableau, terminals_from, active_ids, is_branch, is_terminal_unclosed, tree_shaped, contradictions_closed};
use crate::world::{WorldGraph, ids_match, is_modal_closure};

verus! {

broadcast use vstd::seq::Seq::lemma_filter_push;

/// Every node of the tableau is evaluated at a world of the frame.
pub open spec fn worlds_valid(t: GraphView<Formula>, w: GraphView<World>) -> bool {
    forall|k: int| 0 <= k < t.nodes.len() ==> (#[trigger] t.nodes[k]).world_id() < w.size()
}

/// Texts and worlds of the old nodes are kept, and nodes are only added.
pub open spec fn grows(old_t: GraphView<Formula>, new_t: GraphView<Formula>) -> bool {
    &&& old_t.nodes.len() <= new_t.nodes.len()
    &&& forall|k: int|
        0 <= k < old_t.nodes.len() ==> (#[trigger] new_t.nodes[k]).text() == old_t.nodes[k].text()
            && new_t.nodes[k].world_id() == old_t.nodes[k].world_id()
}

/// A node's formula, world and state.
pub type NodeRec = (Seq<char>, usize, FormulaState);

/// The tableau seen as its nodes' formulas, worlds and states, and its edges.
pub ghost struct TabState {
    pub nodes: Seq<NodeRec>,
    pub adj: Seq<Seq<usize>>,
}

pub open spec fn rec_of(f: Formula) -> NodeRec {
    (f.text(), f.world_id(), f.status())
}

pub open spec fn abs_tab(t: GraphView<Formula>) -> TabState {
    TabState { nodes: t.nodes.map_values(|f: Formula| rec_of(f)), adj: t.adj }
}

/// The tableau after appending node `rec` as a child of `parent` (unattached when `parent` is
/// not a node), as `new_node_from` does.
pub open spec fn add_child(g: TabState, parent: usize, rec: NodeRec) -> TabState {
    TabState {
        nodes: g.nodes.push(rec),
        adj: if parent < g.nodes.len() {
            with_edge(g.adj.push(Seq::<usize>::empty()), parent, g.nodes.len() as usize)
        } else {
            g.adj.push(Seq::<usize>::empty())
        },
    }
}

/// The nodes `recs` appended below `t`: each below the one before when `chain`, else each a
/// child of `t`.
pub open spec fn append_recs(g: TabState, t: usize, recs: Seq<NodeRec>, chain: bool) -> TabState
    decreases recs.len(),
{
    if recs.len() == 0 {
        g
    } else {
        let h = append_recs(g, t, recs.drop_last(), chain);
        let parent = if chain && recs.len() > 1 { (h.nodes.len() - 1) as usize } else { t };
        add_child(h, parent, recs.last())
    }
}

/// The nodes `recs` appended below each of the terminals `ts`, in order.
pub open spec fn append_all(g: TabState, ts: Seq<usize>, recs: Seq<NodeRec>, chain: bool) -> TabState
    decreases ts.len(),
{
    if ts.len() == 0 {
        g
    } else {
        append_recs(append_all(g, ts.drop_last(), recs, chain), ts.last(), recs, chain)
    }
}

/// Node `k` set to state `s`.
pub open spec fn with_status(g: TabState, k: usize, s: FormulaState) -> TabState {
    if k < g.nodes.len() {
        TabState { nodes: g.nodes.update(k as int, (g.nodes[k as int].0, g.nodes[k as int].1, s)), adj: g.adj }
    } else {
        g
    }
}

/// The node waits for a new world and its world now reaches one in `frame`.
pub open spec fn wakes(r: NodeRec, frame: Seq<Seq<usize>>) -> bool {
    r.2 == FormulaState::WaitingNewWorlds && r.1 < frame.len() && frame[r.1 as int].len() > 0
}

/// The nodes below `k` that `wakes` admits, made active.
pub open spec fn woken_upto(g: TabState, frame: Seq<Seq<usize>>, k: int) -> TabState {
    TabState {
        nodes: Seq::new(
            g.nodes.len(),
            |i: int|
                if i < k && wakes(g.nodes[i], frame) {
                    (g.nodes[i].0, g.nodes[i].1, FormulaState::Active)
                } else {
                    g.nodes[i]
                },
        ),
        adj: g.adj,
    }
}

/// Every waiting node whose world reaches a world in `frame`, made active.
pub open spec fn woken(g: TabState, frame: Seq<Seq<usize>>) -> TabState {
    woken_upto(g, frame, g.nodes.len() as int)
}

/// Active nodes with formulas `texts` at worlds `worlds`.
pub open spec fn recs_of(texts: Seq<String>, worlds: Seq<usize>) -> Seq<NodeRec> {
    Seq::new(texts.len(), |j: int| (texts[j]@, worlds[j], FormulaState::Active))
}

/// Active nodes with formulas `fs`, all at world `w`.
pub open spec fn active_recs(fs: Seq<Seq<char>>, w: usize) -> Seq<NodeRec> {
    fs.map_values(|f: Seq<char>| (f, w, FormulaState::Active))
}

/// Active nodes with formula `f`, one at each of the worlds `ws`.
pub open spec fn recs_at_worlds(f: Seq<char>, ws: Seq<usize>) -> Seq<NodeRec> {
    ws.map_values(|u: usize| (f, u, FormulaState::Active))
}

/// The frame keeps its worlds and edges, and may gain more.
pub open spec fn frame_grows(f0: GraphView<World>, f1: GraphView<World>) -> bool {
    &&& f0.nodes.len() <= f1.nodes.len()
    &&& f1.nodes.take(f0.nodes.len() as int) == f0.nodes
    &&& edges_within(f0.adj, f1.adj)
}

/// `(t1, f1)` is `(t0, f0)` after expanding node `k` by the rule for its formula, with frame
/// properties `opts`, against the open terminals at or below `k`:
/// - a literal is only marked inactive;
/// - a conjunction (or another linear rule) puts its formulas one below the other under each
///   terminal, at the node's world; a disjunction or implication puts them side by side;
/// - a necessity puts its operand, once per accessible world and at that world, one below
///   the other under each terminal; with no accessible world the node waits instead;
/// - a possibility adds a world `u`, an edge from the node's world to it, closes the frame,
///   puts its operand at `u` under each terminal, and wakes waiting nodes whose world now
///   reaches a world.
/// The node is then inactive (or waiting), and every other node keeps its state.
pub open spec fn expanded(
    t0: GraphView<Formula>,
    f0: GraphView<World>,
    t1: GraphView<Formula>,
    f1: GraphView<World>,
    k: usize,
    opts: ModalOptions,
) -> bool {
    let g = abs_tab(t0);
    let w = t0.nodes[k as int].world_id();
    let ts = terminals_from(t0, k);
    &&& k < t0.nodes.len()
    &&& match rule_of(t0.nodes[k as int].text()) {
        None => false,
        Some(RuleSpec::Literal) => abs_tab(t1) == with_status(g, k, FormulaState::Inactive) && f1 == f0,
        Some(RuleSpec::Extend(fs)) => abs_tab(t1) == with_status(
            append_all(g, ts, active_recs(fs, w), true),
            k,
            FormulaState::Inactive,
        ) && f1 == f0,
        Some(RuleSpec::Fork(fs)) => abs_tab(t1) == with_status(
            append_all(g, ts, active_recs(fs, w), false),
            k,
            FormulaState::Inactive,
        ) && f1 == f0,
        Some(RuleSpec::Necessary(f)) => f1 == f0 && if f0.adj[w as int].len() == 0 {
            abs_tab(t1) == with_status(g, k, FormulaState::WaitingNewWorlds)
        } else {
            abs_tab(t1) == with_status(
                append_all(g, ts, recs_at_worlds(f, f0.adj[w as int]), true),
                k,
                FormulaState::Inactive,
            )
        },
        Some(RuleSpec::Possible(f)) => {
            let u = f0.nodes.len() as usize;
            &&& f1.nodes.len() == u + 1
            &&& f1.nodes.take(u as int) == f0.nodes
            &&& f1.nodes[u as int].spec_id() == u
            &&& is_modal_closure(f1.adj, with_edge(f0.adj.push(Seq::<usize>::empty()), w, u), opts)
            &&& abs_tab(t1) == woken(
                with_status(append_all(g, ts, active_recs(seq![f], u), true), k, FormulaState::Inactive),
                f1.adj,
            )
        },
    }
}

/// One step of the driving loop: expand the lowest active node, then close the branches that
/// hold a literal and its negation.
pub open spec fn step(
    s0: (GraphView<Formula>, GraphView<World>),
    s1: (GraphView<Formula>, GraphView<World>),
    opts: ModalOptions,
) -> bool {
    let ids = active_ids(s0.0);
    &&& ids.len() > 0
    &&& exists|mid: GraphView<Formula>| #[trigger] expanded(s0.0, s0.1, mid, s1.1, ids[0], opts) && contradictions_closed(mid, s1.0)
}

/// How a run `trace` of at most `limit` steps ends in the tableau `t1` and frame `f1` with
/// result `r`: no active node left and every branch closed; no active node left and the
/// countermodel of the first open branch; the bound used up with nodes still active; or a
/// formula of the next node to expand that cannot be read, or no ids left.
pub open spec fn run_result(
    trace: Seq<(GraphView<Formula>, GraphView<World>)>,
    t1: GraphView<Formula>,
    f1: GraphView<World>,
    r: Result<Outcome, String>,
    limit: usize,
) -> bool {
    match r {
        Ok(Outcome::Unsatisfiable) => trace.last() == (t1, f1) && active_ids(t1).len() == 0
            && terminals_from(t1, 0).len() == 0,
        Ok(Outcome::Satisfiable(cm)) => trace.last() == (t1, f1) && active_ids(t1).len() == 0
            && terminals_from(t1, 0).len() > 0 && exists|b: Seq<usize>|
            #[trigger] is_branch(t1.adj, terminals_from(t1, 0)[0], b) && cm.worlds@.map_values(
                |w: CountermodelWorld| w.spec(),
            ) == countermodel_of(t1, f1, b),
        Ok(Outcome::Inconclusive) => trace.last() == (t1, f1) && trace.len() - 1 == limit && active_ids(t1).len()
            > 0,
        Err(_) => trace.len() - 1 < limit && active_ids(trace.last().0).len() > 0 && (rule_of(
            trace.last().0.nodes[active_ids(trace.last().0)[0] as int].text(),
        ) is None || t1.size() >= usize::MAX - 1 || f1.size() >= usize::MAX - 1),
    }
}

/// `trace` starts at `s0` and each state follows from the one before by one step.
pub open spec fn is_run(
    trace: Seq<(GraphView<Formula>, GraphView<World>)>,
    s0: (GraphView<Formula>, GraphView<World>),
    opts: ModalOptions,
) -> bool {
    &&& trace.len() >= 1
    &&& trace[0] == s0
    &&& forall|i: int| 0 <= i < trace.len() - 1 ==> #[trigger] step(trace[i], trace[i + 1], opts)
}

/// The result of running the tableau to the end.
#[derive(Debug)]
pub enum Outcome {
    /// Every branch closed: the formulas cannot all be true.
    Unsatisfiable,
    /// A branch stayed open; it yields this countermodel.
    Satisfiable(Countermodel),
    /// The step bound ran out with formulas still to expand.
    Inconclusive,
}

/// One world of a countermodel: its id, the worlds accessible from it, and the atoms true
/// there.
#[derive(Debug)]
pub struct CountermodelWorld {
    pub id: usize,
    pub accessible: Vec<usize>,
    pub true_atoms: Vec<String>,
}

/// A model read off an open branch: each world that the branch mentions.
#[derive(Debug)]
pub struct Countermodel {
    pub worlds: Vec<CountermodelWorld>,
}

/// The proof engine: the tableau of the input formulas, the frame of possible worlds, the
/// frame properties in force, and a bound on the number of expansion steps.
pub struct Model {
    worlds: WorldGraph,
    modal_options: ModalOptions,
    tableau: Tableau,
    step_limit: usize,
}

/// The step bound a new model starts with.
pub const DEFAULT_STEP_LIMIT: usize = 10000;

impl Model {
    pub closed spec fn spec_tableau(&self) -> GraphView<Formula> {
        self.tableau@
    }

    pub closed spec fn spec_worlds(&self) -> GraphView<World> {
        self.worlds@
    }

    pub closed spec fn spec_options(&self) -> ModalOptions {
        self.modal_options
    }

    pub closed spec fn spec_step_limit(&self) -> usize {
        self.step_limit
    }

    pub open spec fn wf(&self) -> bool {
        &&& self.spec_tableau().wf()
        &&& tree_shaped(self.spec_tableau().adj)
        &&& self.spec_worlds().wf()
        &&& self.spec_worlds().size() >= 1
        &&& ids_match(self.spec_worlds())
        &&& worlds_valid(self.spec_tableau(), self.spec_worlds())
    }

    /// A model of `formulas` at world 0, the only world, with frame properties `options`.
    pub fn new(options: ModalOptions, formulas: Vec<String>) -> (m: Model)
        ensures
            m.wf(),
            m.spec_options() == options,
            m.spec_worlds().size() == 1,
            m.spec_tableau().size() == formulas.len(),
            m.spec_worlds().adj[0].len() == 0,
            m.spec_worlds().nodes[0].spec_id() == 0,
            forall|i: int|
                0 <= i < formulas.len() ==> {
                    &&& (#[trigger] m.spec_tableau().nodes[i]).text() == formulas@[i]@
                    &&& m.spec_tableau().nodes[i].world_id() == 0
                    &&& m.spec_tableau().nodes[i].status() == FormulaState::Active
                    &&& m.spec_tableau().adj[i] == if i + 1 < formulas.len() {
                        seq![(i + 1) as usize]
                    } else {
                        Seq::<usize>::empty()
                    }
                },
            m.spec_step_limit() == DEFAULT_STEP_LIMIT,
    {
        let n = formulas.len();
        let tableau = Tableau::new(formulas);
        let worlds = WorldGraph::new(1);
        let m = Model { worlds, modal_options: options, tableau, step_limit: DEFAULT_STEP_LIMIT };
        assert forall|k: int| 0 <= k < m.tableau@.nodes.len() implies (#[trigger] m.tableau@.nodes[k]).world_id() < m.worlds@.size() by {
            assert(m.tableau@.nodes[k].world_id() == 0);
        }
        m
    }

    /// Sets the bound on expansion steps.
    pub fn set_step_limit(&mut self, limit: usize)
        ensures
            final(self).spec_step_limit() == limit,
            final(self).spec_tableau() == old(self).spec_tableau(),
            final(self).spec_worlds() == old(self).spec_worlds(),
            final(self).spec_options() == old(self).spec_options(),
    {
        self.step_limit = limit;
    }

    pub fn tableau(&self) -> (r: &Tableau)
        ensures
            r@ == self.spec_tableau(),
    {
        &self.tableau
    }

    pub fn worlds(&self) -> (r: &WorldGraph)
        ensures
            r@ == self.spec_worlds(),
    {
        &self.worlds
    }

    /// Appends nodes with formulas `texts` at worlds `worlds` below terminal `t`: one below
    /// the other when `chain`, else each as a child of `t`. Fails when the tableau has no ids
    /// left.
    fn append_below(&mut self, t: usize, texts: &Vec<String>, worlds: &Vec<usize>, chain: bool) -> (r: Result<(), String>)
        requires
            old(self).wf(),
            t < old(self).spec_tableau().size(),
            texts.len() == worlds.len(),
            forall|j: int| 0 <= j < worlds.len() ==> #[trigger] worlds@[j] < old(self).spec_worlds().size(),
        ensures
            final(self).wf(),
            grows(old(self).spec_tableau(), final(self).spec_tableau()),
            edges_within(old(self).spec_tableau().adj, final(self).spec_tableau().adj),
            final(self).spec_worlds() == old(self).spec_worlds(),
            final(self).spec_options() == old(self).spec_options(),
            final(self).spec_step_limit() == old(self).spec_step_limit(),
            r is Ok ==> abs_tab(final(self).spec_tableau()) == append_recs(
                abs_tab(old(self).spec_tableau()),
                t,
                recs_of(texts@, worlds@),
                chain,
            ),
            r is Err ==> final(self).spec_tableau().size() >= usize::MAX - 1,
    {
        let ghost t0 = self.tableau@;
        let ghost recs = recs_of(texts@, worlds@);
        let mut parent = t;
        for i in 0..texts.len()
            invariant
                self.wf(),
                texts.len() == worlds.len(),
                forall|j: int| 0 <= j < worlds.len() ==> #[trigger] worlds@[j] < self.worlds@.size(),
                grows(t0, self.tableau@),
                edges_within(t0.adj, self.tableau@.adj),
                self.worlds@ == old(self).worlds@,
                self.modal_options == old(self).modal_options,
                self.step_limit == old(self).step_limit,
                t0 == old(self).tableau@,
                recs == recs_of(texts@, worlds@),
                t < t0.nodes.len(),
                self.tableau@.nodes.len() == t0.nodes.len() + i,
                parent == if chain && i > 0 { (self.tableau@.nodes.len() - 1) as usize } else { t },
                abs_tab(self.tableau@) == append_recs(abs_tab(t0), t, recs.take(i as int), chain),
        {
            let n = self.tableau.size();
            if n >= usize::MAX - 1 {
                return Err("The tableau has no room for more nodes".to_string());
            }
            let ghost tb = self.tableau@;
            let f = texts[i].clone();
            let u = worlds[i];
            self.tableau.new_node_from(parent, f, u);
            proof {
                let ta = self.tableau@;
                lemma_abs_new_node(tb, ta, parent, f);
                assert(recs.take(i + 1).drop_last() =~= recs.take(i as int));
                assert(recs[i as int] == (texts@[i as int]@, u, FormulaState::Active));
                assert forall|k: int| 0 <= k < ta.nodes.len() implies (#[trigger] ta.nodes[k]).world_id() < self.worlds@.size() by {
                    if k < tb.nodes.len() {
                        assert(ta.nodes.take(tb.nodes.len() as int)[k] == tb.nodes[k]);
                    }
                }
                assert forall|k: int| 0 <= k < t0.nodes.len() implies (#[trigger] ta.nodes[k]).text() == t0.nodes[k].text()
                    && ta.nodes[k].world_id() == t0.nodes[k].world_id() by {
                    assert(ta.nodes.take(tb.nodes.len() as int)[k] == tb.nodes[k]);
                }
                assert forall|a: usize, b: usize| #[trigger] has_edge(t0.adj, a, b) implies has_edge(ta.adj, a, b) by {
                    assert(has_edge(tb.adj, a, b));
                }
            }
            if chain {
                parent = n;
            }
        }
        assert(recs.take(texts.len() as int) =~= recs);
        Ok(())
    }

    /// Appends the nodes below each of `terminals`, in order, as `append_below` does.
    fn append_below_all(
        &mut self,
        terminals: &Vec<usize>,
        texts: &Vec<String>,
        worlds: &Vec<usize>,
        chain: bool,
    ) -> (r: Result<(), String>)
        requires
            old(self).wf(),
            texts.len() == worlds.len(),
            forall|j: int| 0 <= j < worlds.len() ==> #[trigger] worlds@[j] < old(self).spec_worlds().size(),
            forall|j: int| 0 <= j < terminals@.len() ==> #[trigger] terminals@[j] < old(self).spec_tableau().size(),
        ensures
            final(self).wf(),
            grows(old(self).spec_tableau(), final(self).spec_tableau()),
            edges_within(old(self).spec_tableau().adj, final(self).spec_tableau().adj),
            final(self).spec_worlds() == old(self).spec_worlds(),
            final(self).spec_options() == old(self).spec_options(),
            final(self).spec_step_limit() == old(self).spec_step_limit(),
            r is Ok ==> abs_tab(final(self).spec_tableau()) == append_all(
                abs_tab(old(self).spec_tableau()),
                terminals@,
                recs_of(texts@, worlds@),
                chain,
            ),
            r is Err ==> final(self).spec_tableau().size() >= usize::MAX - 1,
    {
        let ghost t0 = self.tableau@;
        for i in 0..terminals.len()
            invariant
                self.wf(),
                texts.len() == worlds.len(),
                forall|j: int| 0 <= j < worlds.len() ==> #[trigger] worlds@[j] < self.worlds@.size(),
                forall|j: int| 0 <= j < terminals@.len() ==> #[trigger] terminals@[j] < t0.nodes.len(),
                t0 == old(self).tableau@,
                grows(t0, self.tableau@),
                edges_within(t0.adj, self.tableau@.adj),
                self.worlds@ == old(self).worlds@,
                self.modal_options == old(self).modal_options,
                self.step_limit == old(self).step_limit,
                abs_tab(self.tableau@) == append_all(abs_tab(t0), terminals@.take(i as int), recs_of(texts@, worlds@), chain),
        {
            let t = terminals[i];
            let ghost tb = self.tableau@;
            let res = self.append_below(t, texts, worlds, chain);
            proof {
                let ta = self.tableau@;
                lemma_grows_trans(t0, tb, ta);
                assert forall|a: usize, b: usize| #[trigger] has_edge(t0.adj, a, b) implies has_edge(ta.adj, a, b) by {
                    assert(has_edge(tb.adj, a, b));
                }
                assert(terminals@.take(i + 1).drop_last() =~= terminals@.take(i as int));
            }
            match res {
                Ok(()) => {},
                Err(e) => {
                    return Err(e);
                },
            }
        }
        assert(terminals@.take(terminals.len() as int) =~= terminals@);
        Ok(())
    }

    /// Sets the state of node `k`.
    fn set_state(&mut self, k: usize, state: FormulaState)
        requires
            old(self).wf(),
        ensures
            final(self).wf(),
            grows(old(self).spec_tableau(), final(self).spec_tableau()),
            final(self).spec_tableau().nodes.len() == old(self).spec_tableau().nodes.len(),
            final(self).spec_tableau().adj == old(self).spec_tableau().adj,
            abs_tab(final(self).spec_tableau()) == with_status(abs_tab(old(self).spec_tableau()), k, state),
            final(self).spec_worlds() == old(self).spec_worlds(),
            final(self).spec_options() == old(self).spec_options(),
            final(self).spec_step_limit() == old(self).spec_step_limit(),
    {
        let ghost tb = self.tableau@;
        match self.tableau.get_node_mut(k) {
            Some(node) => node.set_state(state),
            None => {},
        }
        proof {
            let ta = self.tableau@;
            assert forall|j: int| 0 <= j < ta.nodes.len() implies (#[trigger] ta.nodes[j]).world_id() < self.worlds@.size() by {
                assert(tb.nodes[j].world_id() < self.worlds@.size());
            }
            assert(abs_tab(ta).nodes =~= with_status(abs_tab(tb), k, state).nodes);
        }
    }

    /// Reactivates every node waiting for a new world whose world now has an accessible world.
    fn wake_waiting(&mut self)
        requires
            old(self).wf(),
        ensures
            final(self).wf(),
            grows(old(self).spec_tableau(), final(self).spec_tableau()),
            final(self).spec_tableau().nodes.len() == old(self).spec_tableau().nodes.len(),
            final(self).spec_tableau().adj == old(self).spec_tableau().adj,
            abs_tab(final(self).spec_tableau()) == woken(abs_tab(old(self).spec_tableau()), old(self).spec_worlds().adj),
            final(self).spec_worlds() == old(self).spec_worlds(),
            final(self).spec_options() == old(self).spec_options(),
            final(self).spec_step_limit() == old(self).spec_step_limit(),
    {
        let ghost t0 = self.tableau@;
        let ghost fa = self.worlds@.adj;
        let n = self.tableau.size();
        proof {
            assert(abs_tab(t0).nodes =~= woken_upto(abs_tab(t0), fa, 0).nodes);
        }
        for k in 0..n
            invariant
                self.wf(),
                n == self.tableau@.size(),
                t0 == old(self).tableau@,
                fa == self.worlds@.adj,
                grows(t0, self.tableau@),
                self.tableau@.nodes.len() == t0.nodes.len(),
                self.tableau@.adj == t0.adj,
                self.worlds@ == old(self).worlds@,
                self.modal_options == old(self).modal_options,
                self.step_limit == old(self).step_limit,
                abs_tab(self.tableau@) == woken_upto(abs_tab(t0), fa, k as int),
        {
            let ghost tb = self.tableau@;
            let waiting = match self.tableau.get_node(k) {
                Some(node) => {
                    *node.state() == FormulaState::WaitingNewWorlds && node.world() < self.worlds.size()
                        && self.worlds.successors(node.world()).len() > 0
                },
                None => false,
            };
            proof {
                assert(abs_tab(tb).nodes[k as int] == rec_of(tb.nodes[k as int]));
                assert(waiting == wakes(abs_tab(t0).nodes[k as int], fa));
            }
            if waiting {
                self.set_state(k, FormulaState::Active);
            }
            proof {
                let ta = self.tableau@;
                assert(abs_tab(ta).nodes =~= woken_upto(abs_tab(t0), fa, k + 1).nodes);
                assert forall|j: int| 0 <= j < t0.nodes.len() implies (#[trigger] ta.nodes[j]).text() == t0.nodes[j].text()
                    && ta.nodes[j].world_id() == t0.nodes[j].world_id() by {
                    assert(tb.nodes[j].text() == t0.nodes[j].text());
                    assert(abs_tab(ta).nodes[j] == rec_of(ta.nodes[j]));
                    assert(abs_tab(tb).nodes[j] == rec_of(tb.nodes[j]));
                }
            }
        }
    }

    /// Expands node `node_id` by the rule for its formula, against every open terminal at or
    /// below it, and marks the node expanded (or waiting, for a necessity with no accessible
    /// world yet). A possibility adds a world, and then waiting nodes whose world now reaches
    /// one are activated again. Fails, with no such node, when the formula cannot be read, or
    /// when the tableau or the frame runs out of ids.
    pub fn eval_node(&mut self, node_id: usize) -> (r: Result<(), String>)
        requires
            old(self).wf(),
        ensures
            final(self).wf(),
            grows(old(self).spec_tableau(), final(self).spec_tableau()),
            edges_within(old(self).spec_tableau().adj, final(self).spec_tableau().adj),
            frame_grows(old(self).spec_worlds(), final(self).spec_worlds()),
            final(self).spec_options() == old(self).spec_options(),
            final(self).spec_step_limit() == old(self).spec_step_limit(),
            r is Ok ==> expanded(
                old(self).spec_tableau(),
                old(self).spec_worlds(),
                final(self).spec_tableau(),
                final(self).spec_worlds(),
                node_id,
                old(self).spec_options(),
            ),
            node_id >= old(self).spec_tableau().size() || rule_of(
                old(self).spec_tableau().nodes[node_id as int].text(),
            ) is None ==> r is Err,
            r is Err ==> node_id >= old(self).spec_tableau().size() || rule_of(
                old(self).spec_tableau().nodes[node_id as int].text(),
            ) is None || final(self).spec_tableau().size() >= usize::MAX - 1 || final(self).spec_worlds().size()
                >= usize::MAX - 1,
    {
        proof {
            let f = self.worlds@;
            assert(f.nodes.take(f.nodes.len() as int) =~= f.nodes);
        }
        if node_id >= self.tableau.size() {
            return Err("No such node".to_string());
        }
        let (text, world) = match self.tableau.get_node(node_id) {
            Some(node) => (node.formula().clone(), node.world()),
            None => {
                return Err("No such node".to_string());
            },
        };
        assert(world < self.worlds@.size()) by {
            assert(self.tableau@.nodes[node_id as int].world_id() < self.worlds@.size());
        }
        let ghost t0 = self.tableau@;
        let ghost w0 = self.worlds@;
        let ghost g = abs_tab(t0);
        let rule = match rule_for(text.as_str()) {
            Ok(rule) => rule,
            Err(e) => {
                return Err(e);
            },
        };
        let ghost rs = rule@;
        let terminals = match self.tableau.terminal_unclosed(node_id) {
            Some(ts) => ts,
            None => Vec::new(),
        };
        let ghost ts = terminals_from(t0, node_id);
        proof {
            assert(terminals@ =~= ts);
            assert forall|j: int| 0 <= j < terminals@.len() implies #[trigger] terminals@[j] < t0.nodes.len() by {
                assert(is_terminal_unclosed(t0, node_id, ts[j]));
            }
        }
        let mut next_state = FormulaState::Inactive;
        let mut woke = false;
        match rule {
            Rule::Literal => {},
            Rule::Extend(fs) => {
                let ws = repeat_world(world, fs.len());
                let res = self.append_below_all(&terminals, &fs, &ws, true);
                proof {
                    assert(recs_of(fs@, ws@) =~= active_recs(fs@.map_values(|s: String| s@), world));
                }
                match res {
                    Ok(()) => {},
                    Err(e) => {
                        return Err(e);
                    },
                }
            },
            Rule::Fork(fs) => {
                let ws = repeat_world(world, fs.len());
                let res = self.append_below_all(&terminals, &fs, &ws, false);
                proof {
                    assert(recs_of(fs@, ws@) =~= active_recs(fs@.map_values(|s: String| s@), world));
                }
                match res {
                    Ok(()) => {},
                    Err(e) => {
                        return Err(e);
                    },
                }
            },
            Rule::Necessary(f) => {
                let succ = crate::world::copy_ids(self.worlds.successors(world));
                if succ.len() == 0 {
                    next_state = FormulaState::WaitingNewWorlds;
                } else {
                    let texts = repeat_text(&f, succ.len());
                    proof {
                        assert forall|j: int| 0 <= j < succ@.len() implies #[trigger] succ@[j] < self.worlds@.size() by {
                            assert(self.worlds@.adj[world as int][j] < self.worlds@.adj.len());
                        }
                        assert(recs_of(texts@, succ@) =~= recs_at_worlds(f@, w0.adj[world as int]));
                    }
                    let res = self.append_below_all(&terminals, &texts, &succ, true);
                    match res {
                        Ok(()) => {},
                        Err(e) => {
                            return Err(e);
                        },
                    }
                }
            },
            Rule::Possible(f) => {
                if self.worlds.size() >= usize::MAX - 1 {
                    return Err("The frame has no room for more worlds".to_string());
                }
                let u = self.worlds.add_world();
                let ghost wb = self.worlds@;
                self.worlds.add_edge(world, u);
                proof {
                    crate::graph::lemma_with_edge(wb.adj, world, u);
                }
                let ghost w1 = self.worlds@;
                let options = self.modal_options;
                self.worlds.implement_modals(&options);
                proof {
                    assert(self.worlds@.nodes.take(w0.nodes.len() as int) == w0.nodes);
                    assert(w1.adj == with_edge(w0.adj.push(Seq::<usize>::empty()), world, u));
                    assert forall|k: int| 0 <= k < self.tableau@.nodes.len() implies (#[trigger] self.tableau@.nodes[k]).world_id() < self.worlds@.size() by {
                        assert(self.tableau@.nodes[k].world_id() < old(self).worlds@.size());
                    }
                    assert forall|a: usize, b: usize| #[trigger] has_edge(w0.adj, a, b) implies has_edge(self.worlds@.adj, a, b) by {
                        assert(w0.adj.push(Seq::<usize>::empty())[a as int] == w0.adj[a as int]);
                        assert(has_edge(w1.adj, a, b));
                        assert(crate::world::edge_rel(self.worlds@.adj)(a, b));
                    }
                }
                let mut texts: Vec<String> = Vec::new();
                texts.push(f);
                let mut ws: Vec<usize> = Vec::new();
                ws.push(u);
                proof {
                    assert(recs_of(texts@, ws@) =~= active_recs(seq![rs->Possible_0], u));
                }
                let res = self.append_below_all(&terminals, &texts, &ws, true);
                match res {
                    Ok(()) => {},
                    Err(e) => {
                        return Err(e);
                    },
                }
                woke = true;
            },
        }
        let ghost t2 = self.tableau@;
        self.set_state(node_id, next_state);
        proof {
            lemma_grows_trans(t0, t2, self.tableau@);
        }
        if woke {
            let ghost tc = self.tableau@;
            self.wake_waiting();
            proof {
                lemma_grows_trans(t0, tc, self.tableau@);
            }
        }
        Ok(())
    }

    /// The atoms of the branch nodes at world `u`, read in order, as strings.
    fn atoms_at(&self, branch: &Vec<usize>, u: usize) -> (r: Vec<String>)
        requires
            self.wf(),
        ensures
            r@.map_values(|s: String| s@) == branch_atoms(self.spec_tableau(), branch@, u),
    {
        let mut out: Vec<String> = Vec::new();
        for i in 0..branch.len()
            invariant
                self.wf(),
                out@.len() == branch_atoms(self.spec_tableau(), branch@.take(i as int), u).len(),
                out@.map_values(|s: String| s@) == branch_atoms(self.spec_tableau(), branch@.take(i as int), u),
        {
            let k = branch[i];
            let ghost ob = out@;
            proof {
                assert(branch@.take(i + 1).drop_last() =~= branch@.take(i as int));
                assert(branch@.take(i + 1).last() == k);
            }
            match self.tableau.get_node(k) {
                Some(node) => {
                    if node.world() == u {
                        match atom(node.formula().as_str()) {
                            Some(a) => {
                                out.push(a);
                                proof {
                                    let nv = out@.map_values(|s: String| s@);
                                    let tv = branch_atoms(self.spec_tableau(), branch@.take(i + 1), u);
                                    assert forall|j: int| 0 <= j < nv.len() implies #[trigger] nv[j] == tv[j] by {
                                        if j < ob.len() {
                                            assert(out@[j] == ob[j]);
                                        }
                                    }
                                    assert(nv =~= tv);
                                }
                            },
                            None => {},
                        }
                    }
                },
                None => {},
            }
        }
        assert(branch@.take(branch.len() as int) =~= branch@);
        out
    }

    /// Whether some node of the branch is at world `u`.
    fn mentions(&self, branch: &Vec<usize>, u: usize) -> (r: bool)
        requires
            self.wf(),
        ensures
            r == mentions_world(self.spec_tableau(), branch@, u),
    {
        for i in 0..branch.len()
            invariant
                self.wf(),
                forall|j: int| 0 <= j < i ==> !#[trigger] at_world(self.spec_tableau(), branch@[j], u),
        {
            match self.tableau.get_node(branch[i]) {
                Some(node) => {
                    if node.world() == u {
                        assert(at_world(self.spec_tableau(), branch@[i as int], u));
                        return true;
                    }
                },
                None => {},
            }
        }
        false
    }

    /// The countermodel that an open branch yields: for each world that a node of the branch
    /// is at, ascending, the worlds accessible from it and the atoms that the branch asserts
    /// there.
    pub fn build_countermodel(&self, branch: &Vec<usize>) -> (r: Countermodel)
        requires
            self.wf(),
        ensures
            r.worlds@.map_values(|w: CountermodelWorld| w.spec()) == countermodel_of(
                self.spec_tableau(),
                self.spec_worlds(),
                branch@,
            ),
    {
        let ghost t = self.spec_tableau();
        let ghost w = self.spec_worlds();
        let ghost pred = |u: usize| mentions_world(t, branch@, u);
        let n = self.worlds.size();
        let mut out: Vec<CountermodelWorld> = Vec::new();
        for u in 0..n
            invariant
                self.wf(),
                t == self.spec_tableau(),
                w == self.spec_worlds(),
                n == w.size(),
                pred == (|u: usize| mentions_world(t, branch@, u)),
                out@.map_values(|x: CountermodelWorld| x.spec()) == id_range(u as nat).filter(pred).map_values(
                    |v: usize| world_entry(t, w, branch@, v),
                ),
        {
            let ghost ob = out@;
            proof {
                assert(id_range((u + 1) as nat) =~= id_range(u as nat).push(u));
            }
            if self.mentions(branch, u) {
                let accessible = crate::world::copy_ids(self.worlds.successors(u));
                let true_atoms = self.atoms_at(branch, u);
                out.push(CountermodelWorld { id: u, accessible, true_atoms });
                proof {
                    let f = |v: usize| world_entry(t, w, branch@, v);
                    let fl = id_range(u as nat).filter(pred);
                    let nv = out@.map_values(|x: CountermodelWorld| x.spec());
                    let ov = ob.map_values(|x: CountermodelWorld| x.spec());
                    let tv = id_range((u + 1) as nat).filter(pred).map_values(f);
                    assert(pred(u));
                    assert(id_range((u + 1) as nat).filter(pred) == fl.push(u));
                    assert(ov == fl.map_values(f));
                    assert(out@.len() == ob.len() + 1);
                    assert(ov.len() == ob.len());
                    assert(fl.map_values(f).len() == fl.len());
                    assert(nv.len() == out@.len());
                    assert(tv.len() == fl.len() + 1);
                    assert(nv.len() == tv.len());
                    assert forall|j: int| 0 <= j < nv.len() implies #[trigger] nv[j] == tv[j] by {
                        if j < ob.len() {
                            assert(out@[j] == ob[j]);
                            assert(ov[j] == fl.map_values(f)[j]);
                        } else {
                            assert(out@[j].spec() == f(u));
                        }
                    }
                    assert(nv =~= tv);
                }
            } else {
                proof {
                    assert(id_range((u + 1) as nat).filter(pred) == id_range(u as nat).filter(pred));
                }
            }
        }
        proof {
            assert(id_range(n as nat).filter(pred) == id_range(w.size()).filter(pred));
        }
        Countermodel { worlds: out }
    }

    /// Expands the lowest active node, then closes contradictory branches, until no node is
    /// active or the step bound is reached. Every branch closed: unsatisfiable. Otherwise the
    /// countermodel of the first open branch. The run is a sequence of such steps from the
    /// old state: as many as the bound when inconclusive, at most that many otherwise.
    pub fn eval_tableau(&mut self) -> (r: Result<Outcome, String>)
        requires
            old(self).wf(),
        ensures
            final(self).wf(),
            grows(old(self).spec_tableau(), final(self).spec_tableau()),
            edges_within(old(self).spec_tableau().adj, final(self).spec_tableau().adj),
            frame_grows(old(self).spec_worlds(), final(self).spec_worlds()),
            final(self).spec_options() == old(self).spec_options(),
            final(self).spec_step_limit() == old(self).spec_step_limit(),
            exists|trace: Seq<(GraphView<Formula>, GraphView<World>)>|
                #[trigger] is_run(trace, (old(self).spec_tableau(), old(self).spec_worlds()), old(self).spec_options())
                    && trace.len() - 1 <= old(self).spec_step_limit() && run_result(
                    trace,
                    final(self).spec_tableau(),
                    final(self).spec_worlds(),
                    r,
                    old(self).spec_step_limit(),
                ),
    {
        let mut steps: usize = 0;
        let ghost t0 = self.tableau@;
        let ghost w0 = self.worlds@;
        let ghost opts = self.modal_options;
        let ghost mut trace: Seq<(GraphView<Formula>, GraphView<World>)> = seq![(t0, w0)];
        proof {
            assert(w0.nodes.take(w0.nodes.len() as int) =~= w0.nodes);
        }
        loop
            invariant
                self.wf(),
                t0 == old(self).tableau@,
                w0 == old(self).worlds@,
                opts == old(self).modal_options,
                self.modal_options == opts,
                self.step_limit == old(self).step_limit,
                grows(t0, self.tableau@),
                edges_within(t0.adj, self.tableau@.adj),
                frame_grows(w0, self.worlds@),
                steps <= self.step_limit,
                is_run(trace, (t0, w0), opts),
                trace.len() == steps + 1,
                trace.last() == (self.tableau@, self.worlds@),
            ensures
                self.wf(),
                self.modal_options == opts,
                self.step_limit == old(self).step_limit,
                grows(t0, self.tableau@),
                edges_within(t0.adj, self.tableau@.adj),
                frame_grows(w0, self.worlds@),
                steps <= self.step_limit,
                is_run(trace, (t0, w0), opts),
                trace.len() == steps + 1,
                trace.last() == (self.tableau@, self.worlds@),
                active_ids(self.tableau@).len() == 0,
            decreases self.step_limit - steps,
        {
            let id = match self.tableau.first_active_node() {
                Some(id) => id,
                None => {
                    break;
                },
            };
            if steps >= self.step_limit {
                let r = Ok(Outcome::Inconclusive);
                proof {
                    assert(is_run(trace, (t0, w0), opts));
                    assert(run_result(trace, self.tableau@, self.worlds@, r, self.step_limit));
                }
                return r;
            }
            let ghost tb = self.tableau@;
            let ghost wb = self.worlds@;
            proof {
                let ids = active_ids(tb);
                assert(ids.contains(ids[0]));
                lemma_filter_member(tb, ids[0]);
            }
            match self.eval_node(id) {
                Ok(()) => {},
                Err(e) => {
                    proof {
                        lemma_grows_trans(t0, tb, self.tableau@);
                        lemma_edges_trans(t0.adj, tb.adj, self.tableau@.adj);
                        lemma_frame_trans(w0, wb, self.worlds@);
                        assert(is_run(trace, (t0, w0), opts));
                        assert(trace.last().0 == tb);
                        assert(active_ids(tb)[0] == id);
                    }
                    let r = Err(e);
                    proof {
                        assert(trace.len() - 1 < self.step_limit);
                        assert(active_ids(trace.last().0).len() > 0);
                        assert(rule_of(tb.nodes[id as int].text()) is None || self.tableau@.size() >= usize::MAX - 1
                            || self.worlds@.size() >= usize::MAX - 1);
                        assert(run_result(trace, self.tableau@, self.worlds@, r, self.step_limit));
                    }
                    return r;
                },
            }
            let ghost tc = self.tableau@;
            let ghost wc = self.worlds@;
            self.tableau.find_contradictions();
            proof {
                let td = self.tableau@;
                assert forall|k: int| 0 <= k < td.nodes.len() implies (#[trigger] td.nodes[k]).world_id() < self.worlds@.size() by {
                    assert(tc.nodes[k].world_id() < self.worlds@.size());
                }
                assert forall|k: int| 0 <= k < tc.nodes.len() implies (#[trigger] td.nodes[k]).text() == tc.nodes[k].text()
                    && td.nodes[k].world_id() == tc.nodes[k].world_id() by {}
                lemma_grows_trans(t0, tb, tc);
                lemma_grows_trans(t0, tc, td);
                lemma_edges_trans(t0.adj, tb.adj, tc.adj);
                lemma_frame_trans(w0, wb, wc);
                assert(expanded(tb, wb, tc, wc, active_ids(tb)[0], opts));
                assert(contradictions_closed(tc, td));
                assert(self.worlds@ == wc);
                let ids = active_ids(tb);
                assert(ids.len() > 0 && ids[0] == id);
                assert(expanded((tb, wb).0, (tb, wb).1, tc, (td, wc).1, ids[0], opts) && contradictions_closed(tc, (td, wc).0));
                assert(step((tb, wb), (td, wc), opts));
                let nt = trace.push((td, wc));
                assert forall|i: int| 0 <= i < nt.len() - 1 implies #[trigger] step(nt[i], nt[i + 1], opts) by {
                    if i < trace.len() - 1 {
                        assert(nt[i] == trace[i] && nt[i + 1] == trace[i + 1]);
                        assert(step(trace[i], trace[i + 1], opts));
                    }
                }
                trace = nt;
            }
            steps = steps + 1;
        }
        proof {
            assert(is_run(trace, (t0, w0), opts));
        }
        let r = match self.tableau.unclosed_branches() {
            None => Ok(Outcome::Unsatisfiable),
            Some(bs) => {
                let cm = self.build_countermodel(&bs[0]);
                proof {
                    let bsv = bs@.map_values(|b: Vec<usize>| b@);
                    assert(bsv[0] == bs@[0]@);
                    assert(is_branch(self.tableau@.adj, terminals_from(self.tableau@, 0)[0], bsv[0]));
                }
                Ok(Outcome::Satisfiable(cm))
            },
        };
        proof {
            assert(run_result(trace, self.tableau@, self.worlds@, r, self.step_limit));
            assert(is_run(trace, (old(self).spec_tableau(), old(self).spec_worlds()), old(self).spec_options()));
            assert(trace.len() - 1 <= old(self).spec_step_limit());
            assert(run_result(trace, self.spec_tableau(), self.spec_worlds(), r, old(self).spec_step_limit()));
        }
        r
    }
}

impl CountermodelWorld {
    pub open spec fn spec(self) -> (usize, Seq<usize>, Seq<Seq<char>>) {
        (self.id, self.accessible@, self.true_atoms@.map_values(|s: String| s@))
    }
}

/// Node `k` exists and is at world `u`.
pub open spec fn at_world(t: GraphView<Formula>, k: usize, u: usize) -> bool {
    k < t.nodes.len() && t.nodes[k as int].world_id() == u
}

/// Some node of `branch` is at world `u`.
pub open spec fn mentions_world(t: GraphView<Formula>, branch: Seq<usize>, u: usize) -> bool {
    exists|j: int| 0 <= j < branch.len() && #[trigger] at_world(t, branch[j], u)
}

/// The atoms that the nodes of `branch` at world `u` assert, in branch order.
pub open spec fn branch_atoms(t: GraphView<Formula>, branch: Seq<usize>, u: usize) -> Seq<Seq<char>>
    decreases branch.len(),
{
    if branch.len() == 0 {
        Seq::empty()
    } else {
        let k = branch.last();
        let rest = branch_atoms(t, branch.drop_last(), u);
        if at_world(t, k, u) && atom_of(t.nodes[k as int].text()) is Some {
            rest.push(atom_of(t.nodes[k as int].text())->0)
        } else {
            rest
        }
    }
}

/// The countermodel entry of world `u`: its id, its accessible worlds, its true atoms.
pub open spec fn world_entry(
    t: GraphView<Formula>,
    w: GraphView<World>,
    branch: Seq<usize>,
    u: usize,
) -> (usize, Seq<usize>, Seq<Seq<char>>) {
    (u, w.adj[u as int], branch_atoms(t, branch, u))
}

/// The countermodel of `branch`: an entry for each world that the branch mentions, ascending.
pub open spec fn countermodel_of(t: GraphView<Formula>, w: GraphView<World>, branch: Seq<usize>) -> Seq<
    (usize, Seq<usize>, Seq<Seq<char>>),
> {
    id_range(w.size()).filter(|u: usize| mentions_world(t, branch, u)).map_values(
        |u: usize| world_entry(t, w, branch, u),
    )
}

proof fn lemma_filter_member(t: GraphView<Formula>, k: usize)
    requires
        active_ids(t).contains(k),
    ensures
        k < t.nodes.len(),
{
    let p = |i: usize| t.nodes[i as int].status() == FormulaState::Active;
    id_range(t.size()).lemma_filter_contains_rev(p, k);
    assert(id_range(t.size()).contains(k));
    let j = choose|j: int| 0 <= j < id_range(t.size()).len() && id_range(t.size())[j] == k;
}

/// `n` copies of world `w`.
fn repeat_world(w: usize, n: usize) -> (r: Vec<usize>)
    ensures
        r@ == Seq::new(n as nat, |j: int| w),
{
    let mut r: Vec<usize> = Vec::new();
    for i in 0..n
        invariant
            r@ == Seq::new(i as nat, |j: int| w),
    {
        r.push(w);
        assert(r@ =~= Seq::new((i + 1) as nat, |j: int| w));
    }
    r
}

/// `n` copies of formula `f`.
fn repeat_text(f: &String, n: usize) -> (r: Vec<String>)
    ensures
        r.len() == n,
        forall|j: int| 0 <= j < n ==> (#[trigger] r@[j])@ == f@,
{
    let mut r: Vec<String> = Vec::new();
    for i in 0..n
        invariant
            r.len() == i,
            forall|j: int| 0 <= j < i ==> (#[trigger] r@[j])@ == f@,
    {
        r.push(f.clone());
    }
    r
}

/// The abstract tableau after `new_node_from(parent, f, u)`.
proof fn lemma_abs_new_node(tb: GraphView<Formula>, ta: GraphView<Formula>, parent: usize, f: String)
    requires
        ta.nodes.len() == tb.nodes.len() + 1,
        ta.nodes.take(tb.nodes.len() as int) == tb.nodes,
        ta.adj == if parent < tb.nodes.len() {
            with_edge(tb.adj.push(Seq::<usize>::empty()), parent, tb.nodes.len() as usize)
        } else {
            tb.adj.push(Seq::<usize>::empty())
        },
    ensures
        abs_tab(ta) == add_child(abs_tab(tb), parent, rec_of(ta.nodes.last())),
{
    assert forall|k: int| 0 <= k < tb.nodes.len() implies ta.nodes[k] == tb.nodes[k] by {
        assert(ta.nodes.take(tb.nodes.len() as int)[k] == tb.nodes[k]);
    }
    assert(abs_tab(ta).nodes =~= abs_tab(tb).nodes.push(rec_of(ta.nodes.last())));
}

proof fn lemma_edges_trans(a: Seq<Seq<usize>>, b: Seq<Seq<usize>>, c: Seq<Seq<usize>>)
    requires
        edges_within(a, b),
        edges_within(b, c),
    ensures
        edges_within(a, c),
{
    assert forall|x: usize, y: usize| #[trigger] has_edge(a, x, y) implies has_edge(c, x, y) by {
        assert(has_edge(b, x, y));
    }
}

proof fn lemma_frame_trans(a: GraphView<World>, b: GraphView<World>, c: GraphView<World>)
    requires
        frame_grows(a, b),
        frame_grows(b, c),
    ensures
        frame_grows(a, c),
{
    lemma_edges_trans(a.adj, b.adj, c.adj);
    assert forall|k: int| 0 <= k < a.nodes.len() implies c.nodes[k] == a.nodes[k] by {
        assert(b.nodes.take(a.nodes.len() as int)[k] == a.nodes[k]);
        assert(c.nodes.take(b.nodes.len() as int)[k] == b.nodes[k]);
    }
    assert(c.nodes.take(a.nodes.len() as int) =~= a.nodes);
}

proof fn lemma_grows_trans(a: GraphView<Formula>, b: GraphView<Formula>, c: GraphView<Formula>)
    requires
        grows(a, b),
        grows(b, c),
    ensures
        grows(a, c),
{
    assert forall|k: int| 0 <= k < a.nodes.len() implies (#[trigger] c.nodes[k]).text() == a.nodes[k].text()
        && c.nodes[k].world_id() == a.nodes[k].world_id() by {
        assert(b.nodes[k].text() == a.nodes[k].text());
    }
}

} // verus!
