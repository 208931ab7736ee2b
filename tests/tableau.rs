use std::collections::{HashMap, HashSet};

use logic_model::{Formula, Graph, Tableau};

#[test]
fn active_tests() {
    let rootformulas: Vec<String> = vec![
        String::from("first formula"),
        String::from("second formula"),
        String::from("third formula"),
    ];
    let mut tableau = Tableau::new(rootformulas);

    assert_eq!(3, tableau.active_nodes().unwrap().len());

    for id in tableau.node_ids() {
        tableau.get_node_mut(id).unwrap().deactivate();
    }

    assert_eq!(None, tableau.active_nodes())
}

#[test]
fn new_tableau() {
    let rootformulas: Vec<String> = vec![
        String::from("first formula"),
        String::from("second formula"),
        String::from("third formula"),
    ];
    let tab = Tableau::new(rootformulas);

    let mut hash_map: HashMap<usize, HashSet<usize>> = HashMap::new();
    let mut map: HashSet<usize> = HashSet::new();
    map.insert(1);
    hash_map.insert(0, map);
    let mut map: HashSet<usize> = HashSet::new();
    map.insert(2);
    hash_map.insert(1, map);
    hash_map.insert(2, HashSet::new());

    let adj: HashMap<usize, HashSet<usize>> =
        tab.node_ids().into_iter().map(|id| (id, tab.adj_to(id).unwrap())).collect();
    assert_eq!(adj, hash_map)
}

#[test]
fn branching_test() {
    let formulas = vec![
        "one".to_string(),
        "two".to_string(),
        "three".to_string(),
        "four".to_string(),
        "five".to_string(),
        "six".to_string(),
        "seven".to_string(),
    ];
    let mut tableau: Tableau = Graph::empty();
    for f in formulas {
        tableau.add_node(Formula::new(f, 0));
    }

    tableau.add_edge(0, 1);
    tableau.add_edge(1, 2);
    tableau.add_edge(2, 3);
    tableau.add_edge(2, 4);
    tableau.add_edge(3, 5);
    tableau.add_edge(4, 6);

    let mut terminals = tableau.unclosed_branches().unwrap();
    terminals.sort();

    // Each branch lists its nodes in ascending id order.
    let ex_vecs: Vec<Vec<usize>> = vec![vec![0, 1, 2, 3, 5], vec![0, 1, 2, 4, 6]];

    assert_eq!(ex_vecs, terminals)
}

#[test]
fn get_actives() {
    // create tableaux
    let rootformulas: Vec<String> = vec![
        String::from("first formula"),
        String::from("second formula"),
        String::from("third formula"),
    ];

    let mut root = Tableau::new(rootformulas);

    // get first active formula
    let first_active = root.first_active_node().unwrap();

    // assertion
    assert_eq!(root.get_node(first_active).unwrap().formula(), &String::from("first formula"));

    root.get_node_mut(first_active).unwrap().deactivate();

    let first_active = root.first_active_node().unwrap();
    assert_eq!(root.get_node(first_active).unwrap().formula(), &String::from("second formula"));
}

#[test]
fn get_actives_recursive() {
    let rootformulas: Vec<String> = vec![
        String::from("first formula"),
        String::from("second formula"),
        String::from("third formula"),
    ];
    let mut root = Tableau::new(rootformulas);

    let leaf1formulas: Vec<String> = vec![
        String::from("leaf1 first formula"),
        String::from("leaf1 second formula"),
        String::from("leaf1 third formula"),
    ];
    let leaf2formulas: Vec<String> = vec![
        String::from("first formula"),
        String::from("second formula"),
        String::from("third formula"),
    ];
    // Each leaf is a chain of its own below the root's last node.
    for leaf in [leaf1formulas, leaf2formulas] {
        let mut parent = 2;
        for f in leaf {
            root.new_node_from(parent, f, 0);
            parent = root.size() - 1;
        }
    }

    for id in 0..3 {
        root.get_node_mut(id).unwrap().deactivate();
    }

    let first_active = root.first_active_node().unwrap();
    assert_eq!(root.get_node(first_active).unwrap().formula(), &String::from("leaf1 first formula"))
}
