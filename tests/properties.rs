use logic_model::{
    atom, parse_formula, rule_for, surplus_operands, Config, Formula, FormulaState, Graph, GraphSearch, ModalOptions, Model,
    Outcome, Rule, Tableau, World, WorldGraph,
};

fn strings(v: &[&str]) -> Vec<String> {
    v.iter().map(|s| s.to_string()).collect()
}

#[test]
fn new_graph_has_size_and_ids() {
    for n in [0usize, 1, 7] {
        let g = Graph::<World>::new(n);
        assert_eq!(n, g.size());
        assert_eq!((0..n).collect::<Vec<usize>>(), g.node_ids());
    }
}

#[test]
fn add_edge_twice_is_add_edge_once() {
    let mut g = WorldGraph::new(3);
    g.add_edge(0, 2);
    let once = g.adj_to(0).unwrap();
    let edges_once = g.e();
    g.add_edge(0, 2);
    assert_eq!(once, g.adj_to(0).unwrap());
    assert_eq!(edges_once, g.e());
    assert_eq!(1, g.e());
}

#[test]
fn add_edge_ignores_invalid_ids() {
    let mut g = WorldGraph::new(3);
    g.add_edge(0, 7);
    g.add_edge(9, 1);
    assert_eq!(0, g.e());
    assert_eq!(None, g.adj_to(9));
    assert_eq!(None, g.adj_test(9, 0));
}

#[test]
fn bfs_marks_what_is_reachable() {
    let mut wg = WorldGraph::new(10);
    wg.add_edge(1, 2);
    wg.add_edge(2, 3);
    wg.add_edge(2, 4);
    wg.add_edge(3, 5);
    let search = GraphSearch::bfs(&wg, 2);
    let mut marked = search.all_marked().unwrap();
    marked.sort();
    assert_eq!(vec![3, 4, 5], marked);
    assert!(!search.has_path_to(1));
    assert!(search.has_path_to(4));
    assert_eq!(vec![2, 3, 5], search.path_to(5).unwrap());
}

#[test]
fn search_from_invalid_source_is_empty() {
    let wg = WorldGraph::new(3);
    assert_eq!(None, GraphSearch::bfs(&wg, 5).all_marked());
    assert_eq!(None, GraphSearch::dfs(&wg, 5).all_marked());
    assert_eq!(None, GraphSearch::shortest_path(&wg, 5, 1));
}

#[test]
fn source_is_marked_only_through_a_cycle() {
    let mut wg = WorldGraph::new(3);
    wg.add_edge(0, 1);
    wg.add_edge(1, 0);
    let search = GraphSearch::bfs(&wg, 0);
    assert!(search.has_path_to(0));
    assert!(!search.has_path_to(2));
}

#[test]
fn shortest_path_takes_the_two_hop_route() {
    let mut wg = WorldGraph::new(7);
    wg.add_edge(1, 2);
    wg.add_edge(2, 3);
    wg.add_edge(3, 5);
    wg.add_edge(5, 6);
    wg.add_edge(2, 4);
    wg.add_edge(4, 6);
    let path = GraphSearch::shortest_path(&wg, 1, 6).unwrap();
    assert_eq!(4, path.len());
    assert_eq!(vec![1, 2, 4, 6], path);
    assert_eq!(None, GraphSearch::shortest_path(&wg, 6, 1));
}

#[test]
fn equivalence_closure_of_a_chain_connects_every_pair() {
    let mut g = WorldGraph::new(3);
    g.add_edge(0, 1);
    g.add_edge(1, 2);
    g.implement_modals(&ModalOptions::new(true, true, true, false));
    for i in 0..3 {
        for j in 0..3 {
            assert_eq!(Some(true), g.adj_test(i, j), "{} {}", i, j);
        }
    }
    assert_eq!(9, g.e());
}

#[test]
fn single_properties_close_as_expected() {
    let mut refl = WorldGraph::new(3);
    refl.add_edge(0, 1);
    refl.implement_modals(&ModalOptions::new(true, false, false, false));
    assert_eq!(4, refl.e());
    assert_eq!(Some(false), refl.adj_test(1, 0));

    let mut sym = WorldGraph::new(3);
    sym.add_edge(0, 1);
    sym.add_edge(1, 2);
    sym.implement_modals(&ModalOptions::new(false, true, false, false));
    assert_eq!(4, sym.e());
    assert_eq!(Some(true), sym.adj_test(2, 1));
    assert_eq!(Some(false), sym.adj_test(0, 2));

    let mut trans = WorldGraph::new(3);
    trans.add_edge(0, 1);
    trans.add_edge(1, 2);
    trans.implement_modals(&ModalOptions::new(false, false, true, false));
    assert_eq!(3, trans.e());
    assert_eq!(Some(true), trans.adj_test(0, 2));
    assert_eq!(Some(false), trans.adj_test(0, 0));
}

#[test]
fn symmetric_and_transitive_need_the_fixpoint() {
    // Symmetry after transitivity would leave 1 -> 1 and 2 -> 2 out.
    let mut g = WorldGraph::new(3);
    g.add_edge(0, 1);
    g.add_edge(0, 2);
    g.implement_modals(&ModalOptions::new(false, true, true, false));
    for i in 0..3 {
        for j in 0..3 {
            assert_eq!(Some(true), g.adj_test(i, j), "{} {}", i, j);
        }
    }
}

#[test]
fn connect_all_links_every_pair() {
    let mut g = WorldGraph::new(3);
    g.connect_all();
    assert_eq!(9, g.e());
}

#[test]
fn accessible_lists_successor_worlds() {
    let mut g = WorldGraph::new(3);
    g.add_edge(0, 2);
    g.add_edge(0, 1);
    let ids: Vec<usize> = g.accessible(0).unwrap().iter().map(|w| w.id()).collect();
    assert_eq!(vec![2, 1], ids);
    assert!(g.accessible(5).is_none());
    assert_eq!(3, g.add_world());
    assert_eq!(4, g.v());
}

#[test]
fn unclosed_branches_of_a_fork() {
    let mut t: Tableau = Graph::empty();
    for f in ["a", "b", "c", "d", "e", "f", "g"] {
        t.add_node(Formula::new(f.to_string(), 0));
    }
    for (v, w) in [(0, 1), (1, 2), (2, 3), (2, 4), (3, 5), (4, 6)] {
        t.add_edge(v, w);
    }
    let mut branches = t.unclosed_branches().unwrap();
    branches.sort();
    assert_eq!(vec![vec![0, 1, 2, 3, 5], vec![0, 1, 2, 4, 6]], branches);
    assert_eq!(vec![5, 6], t.terminal_unclosed(0).unwrap());
    assert_eq!(vec![6], t.terminal_unclosed(4).unwrap());
    assert_eq!(None, t.terminal_unclosed(9));
}

#[test]
fn single_node_is_its_own_branch() {
    let t = Tableau::new(strings(&["p"]));
    assert_eq!(vec![vec![0]], t.unclosed_branches().unwrap());
    assert_eq!(vec![0], t.terminal_unclosed(0).unwrap());
}

#[test]
fn contradiction_closes_the_branch() {
    let mut t = Tableau::new(strings(&["p", "q", "¬p"]));
    t.find_contradictions();
    assert_eq!(&FormulaState::Closed, t.get_node(2).unwrap().state());
    assert_eq!(Some(vec![0, 1]), t.active_nodes());
    assert_eq!(None, t.unclosed_branches());
    assert_eq!(None, t.terminal_unclosed(0));
}

#[test]
fn contradiction_needs_the_same_world() {
    let mut t = Tableau::new(strings(&["p"]));
    t.new_node_from(0, "¬p".to_string(), 1);
    t.find_contradictions();
    assert_eq!(&FormulaState::Active, t.get_node(1).unwrap().state());
    assert_eq!(Some(vec![vec![0, 1]]), t.unclosed_branches());
}

#[test]
fn contradiction_on_one_branch_only() {
    let mut t = Tableau::new(strings(&["p"]));
    t.new_node_from(0, "¬p".to_string(), 0);
    t.new_node_from(0, "q".to_string(), 0);
    t.find_contradictions();
    assert_eq!(&FormulaState::Closed, t.get_node(1).unwrap().state());
    assert_eq!(Some(vec![vec![0, 2]]), t.unclosed_branches());
}

#[test]
fn first_active_node_is_the_lowest() {
    let mut t = Tableau::new(strings(&["a", "b", "c"]));
    assert_eq!(Some(0), t.first_active_node());
    t.get_node_mut(0).unwrap().deactivate();
    t.get_node_mut(1).unwrap().wait();
    assert_eq!(Some(2), t.first_active_node());
    assert_eq!(&FormulaState::WaitingNewWorlds, t.get_node(1).unwrap().state());
    t.get_node_mut(2).unwrap().close();
    assert_eq!(None, t.first_active_node());
}

#[test]
fn rules_for_connectives() {
    assert!(matches!(rule_for("p").unwrap(), Rule::Literal));
    assert!(matches!(rule_for("¬p").unwrap(), Rule::Literal));
    match rule_for("p ⋀ q").unwrap() {
        Rule::Extend(v) => assert_eq!(strings(&["p", "q"]), v),
        r => panic!("{:?}", r),
    }
    match rule_for("p ⋁ ¬q").unwrap() {
        Rule::Fork(v) => assert_eq!(strings(&["p", "¬q"]), v),
        r => panic!("{:?}", r),
    }
    match rule_for("(p ⋀ r) ⊃ q").unwrap() {
        Rule::Fork(v) => assert_eq!(strings(&["¬(p ⋀ r)", "q"]), v),
        r => panic!("{:?}", r),
    }
    match rule_for("◻(p ⋁ q)").unwrap() {
        Rule::Necessary(f) => assert_eq!("(p ⋁ q)", f),
        r => panic!("{:?}", r),
    }
    match rule_for("◇p").unwrap() {
        Rule::Possible(f) => assert_eq!("p", f),
        r => panic!("{:?}", r),
    }
}

#[test]
fn rules_push_negation_inward() {
    match rule_for("¬¬p").unwrap() {
        Rule::Extend(v) => assert_eq!(strings(&["p"]), v),
        r => panic!("{:?}", r),
    }
    match rule_for("¬(p ⋀ q)").unwrap() {
        Rule::Fork(v) => assert_eq!(strings(&["¬p", "¬q"]), v),
        r => panic!("{:?}", r),
    }
    match rule_for("¬(p ⋁ q)").unwrap() {
        Rule::Extend(v) => assert_eq!(strings(&["¬p", "¬q"]), v),
        r => panic!("{:?}", r),
    }
    match rule_for("¬(p ⊃ q)").unwrap() {
        Rule::Extend(v) => assert_eq!(strings(&["p", "¬q"]), v),
        r => panic!("{:?}", r),
    }
    match rule_for("¬◻p").unwrap() {
        Rule::Extend(v) => assert_eq!(strings(&["◇¬p"]), v),
        r => panic!("{:?}", r),
    }
    match rule_for("¬◇p").unwrap() {
        Rule::Extend(v) => assert_eq!(strings(&["◻¬p"]), v),
        r => panic!("{:?}", r),
    }
}

#[test]
fn rules_reject_missing_operands() {
    assert!(rule_for("p ⊃").is_err());
    assert!(rule_for("¬").is_err());
    assert!(rule_for("p ? q").is_err());
}

#[test]
fn atoms_are_single_letters() {
    assert_eq!(Some("p".to_string()), atom("p"));
    assert_eq!(Some("q".to_string()), atom(" q "));
    assert_eq!(None, atom("¬p"));
    assert_eq!(None, atom("p ⋀ q"));
}

#[test]
fn modus_ponens_set_is_unsatisfiable() {
    let mut m = Model::new(ModalOptions::new_default(), strings(&["p ⊃ q", "p", "¬q"]));
    assert!(matches!(m.eval_tableau().unwrap(), Outcome::Unsatisfiable));
    assert_eq!(None, m.tableau().unclosed_branches());
}

#[test]
fn two_atoms_have_a_countermodel() {
    let mut m = Model::new(ModalOptions::new_default(), strings(&["p", "q"]));
    match m.eval_tableau().unwrap() {
        Outcome::Satisfiable(cm) => {
            assert_eq!(1, cm.worlds.len());
            assert_eq!(0, cm.worlds[0].id);
            assert_eq!(strings(&["p", "q"]), cm.worlds[0].true_atoms);
        },
        other => panic!("{:?}", other),
    }
    assert_eq!(1, m.tableau().unclosed_branches().unwrap().len());
}

#[test]
fn possibility_against_necessity_closes() {
    let mut m = Model::new(ModalOptions::new_default(), strings(&["◇p", "◻¬p"]));
    assert!(matches!(m.eval_tableau().unwrap(), Outcome::Unsatisfiable));
    let mut m = Model::new(ModalOptions::new_default(), strings(&["◻p", "◇¬p"]));
    assert!(matches!(m.eval_tableau().unwrap(), Outcome::Unsatisfiable));
}

#[test]
fn possibility_creates_an_accessible_world() {
    let mut m = Model::new(ModalOptions::new_default(), strings(&["◇p", "q"]));
    match m.eval_tableau().unwrap() {
        Outcome::Satisfiable(cm) => {
            assert_eq!(2, cm.worlds.len());
            assert_eq!(strings(&["q"]), cm.worlds[0].true_atoms);
            assert_eq!(1, cm.worlds[1].id);
            assert_eq!(strings(&["p"]), cm.worlds[1].true_atoms);
            assert!(cm.worlds[0].accessible.contains(&1));
        },
        other => panic!("{:?}", other),
    }
    assert_eq!(2, m.worlds().v());
}

#[test]
fn disjunction_with_one_open_side() {
    let mut m = Model::new(ModalOptions::new_default(), strings(&["p ⋁ q", "¬p"]));
    match m.eval_tableau().unwrap() {
        Outcome::Satisfiable(cm) => assert_eq!(strings(&["q"]), cm.worlds[0].true_atoms),
        other => panic!("{:?}", other),
    }
}

#[test]
fn step_bound_gives_inconclusive() {
    let mut m = Model::new(ModalOptions::new_default(), strings(&["p ⋀ q"]));
    m.set_step_limit(0);
    assert!(matches!(m.eval_tableau().unwrap(), Outcome::Inconclusive));
}

#[test]
fn unreadable_formula_is_an_error() {
    let mut m = Model::new(ModalOptions::new_default(), strings(&["p ⊃ 3"]));
    assert!(m.eval_tableau().is_err());
}

#[test]
fn config_takes_the_second_argument() {
    let c = Config::build(strings(&["prog", "data/basic.txt"])).unwrap();
    assert_eq!("data/basic.txt", c.infile());
    assert!(Config::build(strings(&["prog"])).is_err());
}

#[test]
fn modal_options_presets() {
    let d = ModalOptions::new_default();
    assert!(d.rho() && d.sigma() && d.tau() && !d.eta());
    let a = ModalOptions::all_true();
    assert!(a.rho() && a.sigma() && a.tau() && a.eta());
}

#[test]
fn parse_reads_letters_through_the_alphabet_check() {
    let ins = parse_formula("ä ⋀ b").unwrap();
    assert_eq!(&vec!["ä".to_string(), "b".to_string()], ins.variables());
}

#[test]
fn surplus_operands_are_reported_and_ignored() {
    assert!(surplus_operands("p ⋀ q ⋀ r"));
    assert!(surplus_operands("p q"));
    assert!(!surplus_operands("p ⋀ q"));
    assert!(!surplus_operands("¬p"));
    assert!(!surplus_operands("p ⋀"));
    match rule_for("p ⋀ q ⋀ r").unwrap() {
        Rule::Extend(v) => assert_eq!(strings(&["p", "q"]), v),
        r => panic!("{:?}", r),
    }
}

#[test]
fn only_a_literal_and_its_negation_close() {
    let mut t = Tableau::new(strings(&["p ⋁ q", "¬p ⋁ q"]));
    t.find_contradictions();
    assert_eq!(&FormulaState::Active, t.get_node(1).unwrap().state());
    let mut m = Model::new(ModalOptions::new_default(), strings(&["p ⋁ q", "¬p ⋁ q"]));
    assert!(matches!(m.eval_tableau().unwrap(), Outcome::Satisfiable(_)));
}

#[test]
fn expanding_a_missing_node_is_an_error() {
    let mut m = Model::new(ModalOptions::new_default(), strings(&["p"]));
    assert!(m.eval_node(5).is_err());
    assert!(m.eval_node(0).is_ok());
    assert_eq!(&FormulaState::Inactive, m.tableau().get_node(0).unwrap().state());
}

#[test]
fn disjunction_forks_below_every_open_terminal() {
    let mut m = Model::new(ModalOptions::new_default(), strings(&["p ⋁ q", "r"]));
    m.eval_node(0).unwrap();
    let t = m.tableau();
    assert_eq!(4, t.size());
    assert_eq!(vec![2, 3], {
        let mut v: Vec<usize> = t.adj_to(1).unwrap().into_iter().collect();
        v.sort();
        v
    });
    assert_eq!("p", t.get_node(2).unwrap().formula());
    assert_eq!("q", t.get_node(3).unwrap().formula());
}

#[test]
fn necessity_without_worlds_waits_and_wakes_after_possibility() {
    let mut m = Model::new(ModalOptions::new(false, false, false, false), strings(&["◻p", "◇q"]));
    m.eval_node(0).unwrap();
    assert_eq!(&FormulaState::WaitingNewWorlds, m.tableau().get_node(0).unwrap().state());
    assert_eq!(2, m.tableau().size());
    m.eval_node(1).unwrap();
    assert_eq!(2, m.worlds().v());
    assert_eq!(Some(true), m.worlds().adj_test(0, 1));
    assert_eq!(&FormulaState::Active, m.tableau().get_node(0).unwrap().state());
    assert_eq!(1, m.tableau().get_node(2).unwrap().world());
    m.eval_node(0).unwrap();
    assert_eq!("p", m.tableau().get_node(3).unwrap().formula());
    assert_eq!(1, m.tableau().get_node(3).unwrap().world());
}

#[test]
fn accessible_worlds_carry_their_ids() {
    let mut g = WorldGraph::new(4);
    g.add_edge(2, 3);
    g.add_edge(2, 0);
    let ids: Vec<usize> = g.accessible(2).unwrap().iter().map(|w| w.id()).collect();
    assert_eq!(vec![3, 0], ids);
}
