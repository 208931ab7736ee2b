use logic_model::{GraphSearch, WorldGraph};

#[test]
fn make_graph() {
    let wg = WorldGraph::new(10);

    assert_eq!(wg.all_worlds().len(), wg.v())
}

#[test]
fn world0() {
    let wg = WorldGraph::new(1);
    let w0 = wg.get_node(0).unwrap();

    assert_eq!(0, w0.id())
}

#[test]
fn add_edge() {
    let mut wg = WorldGraph::new(10);
    wg.add_edge(1, 3);

    assert_eq!(1, wg.e())
}

#[test]
fn next_world() {
    let wg = WorldGraph::new(10);
    let next = wg.next_world();

    assert_eq!(10, next)
}

#[test]
fn adjacency() {
    let mut wg = WorldGraph::new(10);
    wg.add_edge(1, 2);
    wg.add_edge(2, 3);
    wg.add_edge(2, 4);
    wg.add_edge(3, 5);

    let mut adj: Vec<usize> = wg.adj_to(2).unwrap().into_iter().collect();
    adj.sort();

    assert_eq!(vec![3, 4], adj)
}

#[test]
fn basic_search() {
    let mut wg = WorldGraph::new(10);
    wg.add_edge(1, 2);
    wg.add_edge(2, 3);
    wg.add_edge(2, 4);
    wg.add_edge(3, 5);

    let search = GraphSearch::dfs(&wg, 2);
    let mut available = search.all_marked().unwrap();
    available.sort();

    assert_eq!(available.len(), 3);
    assert_eq!(available, vec![3, 4, 5]);

    assert_eq!(search.has_path_to(1), false);
    assert_eq!(search.has_path_to(4), true);
    assert_eq!(search.has_path_to(2), false);

    assert_eq!(search.path_to(1), None);

    // The path lists its nodes in ascending id order.
    let path = search.path_to(5).unwrap();
    assert_eq!(vec![2, 3, 5], path);
}

#[test]
fn shortest_path() {
    let mut wg = WorldGraph::new(10);
    wg.add_edge(1, 2);
    wg.add_edge(2, 3);
    wg.add_edge(2, 4);
    wg.add_edge(3, 5);
    wg.add_edge(4, 6);
    wg.add_edge(5, 6);

    let shortest_path = GraphSearch::shortest_path(&wg, 1, 6);
    assert_eq!(vec![1, 2, 4, 6], shortest_path.unwrap());
}
