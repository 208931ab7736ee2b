use std::collections::HashSet;

use logic_model::{Formula, Graph, ModalOptions, World};

#[test]
fn worlds() {
    let mut worlds = Graph::<World>::new(4);

    assert_eq!(4, worlds.size());
    assert_eq!(vec![0, 1, 2, 3], worlds.node_ids());

    worlds.add_edge(0, 1);
    assert_eq!(true, worlds.adj_test(0, 1).unwrap());
    assert_eq!(false, worlds.adj_test(0, 2).unwrap());

    worlds.add_world();
    assert_eq!(5, worlds.size());
    assert_eq!(vec![0, 1, 2, 3, 4], worlds.node_ids());
}

#[test]
fn modal_connections() {
    let config = ModalOptions::new_default();
    let mut worlds = Graph::<World>::new(10);

    let ids = worlds.node_ids();
    for id in ids.iter() {
        if ids.contains(&(id + 1)) {
            worlds.add_edge(*id, id + 1);
        }
    }
    worlds.implement_modals(&config);
    // every node connected to every other
    for id in ids.iter() {
        for next in &ids[*id..] {
            println!("{} {}", id, next);
            assert_eq!(true, worlds.adj_test(*id, *next).unwrap());
        }
    }
}

#[test]
fn formalas() {
    let formulas = vec!["p then q".to_owned(), "p".to_owned(), "not q".to_owned()];

    // set up downward branching graph
    let mut graph = Graph::<Formula>::new(formulas);
    // new node from
    graph.new_node_from(2, "not p".to_owned(), 0);
    graph.new_node_from(2, "q".to_owned(), 0);
    // deactivate some nodes
    graph.get_node_mut(0).unwrap().deactivate();
    graph.get_node_mut(1).unwrap().deactivate();

    // find active
    let mut actives = graph.active_nodes().unwrap();
    actives.sort();
    assert_eq!(vec![2, 3, 4], actives);

    // first active
    let firsta = graph.first_active_node().unwrap();
    assert_eq!(2, firsta);

    assert_eq!(vec![1_usize], graph.adj_to(0).unwrap().into_iter().collect::<Vec<usize>>());
    assert_eq!(HashSet::new(), graph.adj_to(3).unwrap());

    graph.get_node_mut(4).unwrap().close();
    // unclosed branches
    let test_branch: Vec<Vec<usize>> = vec![vec![0, 1, 2, 3]];
    assert_eq!(test_branch, graph.unclosed_branches().unwrap());

    // terminal unclosed
    assert_eq!(vec![3], graph.terminal_unclosed(0).unwrap());
}
