use std::collections::{HashMap, HashSet};
use structures::graph::{Edges, Graph};

fn new_graph_edges() -> Edges {
    vec![(1, 2, 7), (1, 3, 9), (1, 6, 14), (2, 3, 10), (2, 4, 15), (3, 4, 11), (3, 6, 2), (4, 5, 6), (6, 5, 9)]
}

fn new_graph() -> Graph {
    Graph::from_edges(new_graph_edges())
}

fn new_undirected_graph() -> Graph {
    Graph::from_edges(new_graph_edges().into_iter().flat_map(|t| vec![t, (t.1, t.0, t.2)]).collect())
}

#[test]
fn vertices() {
    let graph = new_graph();
    assert_eq!(graph.vertices(), vec![1, 2, 3, 4, 5, 6].into_iter().collect());
}

#[test]
fn vertices_outgoing_from() {
    let graph = new_graph();
    assert_eq!(graph.vertices_outgoing_from(1), vec![2, 3, 6].into_iter().collect());
}

#[test]
fn edges() {
    assert_eq!(new_graph().edges().len(), 9);
    assert_eq!(new_undirected_graph().edges().len(), 9 * 2);
}

#[test]
fn shortest_path() {
    let graph = new_graph();
    let paths = vec![
        (1, (0, vec![1])),
        (2, (7, vec![1, 2])),
        (3, (9, vec![1, 3])),
        (4, (20, vec![1, 3, 4])),
        (5, (20, vec![1, 3, 6, 5])),
        (6, (11, vec![1, 3, 6])),
    ];
    assert_eq!(graph.shortest_path(1, None), paths.into_iter().collect());
    assert_eq!(graph.shortest_path(1, None).len(), graph.vertices().len());
    assert_eq!(graph.shortest_path(1, Some(2)).len(), 1);
}

#[test]
fn shortest_paths() {
    let graph = new_graph();
    let ow = |m: HashMap<usize, (usize, Vec<usize>)>| m.into_iter().map(|(z, (w, _))| (z, w)).collect::<HashMap<_, _>>();
    for (x, t) in graph.shortest_paths() {
        assert_eq!(ow(graph.shortest_path(x, None)), ow(t));
    }
}

#[test]
fn topo_sort() {
    let sorted = new_undirected_graph().topo_sort();
    assert!(sorted.is_none());
    let sorted = new_graph().topo_sort();
    assert!(sorted.is_some());
    let sorted = sorted.unwrap();
    assert!(sorted == [1, 2, 3, 4, 6, 5] || sorted == [1, 2, 3, 6, 4, 5]);
}

#[test]
fn weights_and_overrides() {
    let mut graph = Graph::new();
    assert_eq!(graph.get_weight(1, 2), None);
    graph.add_edge(1, 2, 5);
    assert_eq!(graph.get_weight(1, 2), Some(5));
    assert_eq!(graph.get_weight(2, 1), None);
    graph.add_edge(1, 2, 3);
    assert_eq!(graph.get_weight(1, 2), Some(3));
    assert_eq!(graph.edges(), vec![(1, 2, 3)]);
    assert_eq!(graph.vertices_outgoing_from(2), HashSet::new());
}

#[test]
fn unreachable_and_isolated_sources() {
    let graph = new_graph();
    let from_five = graph.shortest_path(5, None);
    assert_eq!(from_five.len(), 1);
    assert_eq!(from_five.get(&5), Some(&(0, vec![5])));
    assert!(graph.shortest_path(9, None).is_empty());
    assert_eq!(graph.shortest_path(9, Some(9)).get(&9), Some(&(0, vec![9])));
    assert!(graph.shortest_path(5, Some(1)).is_empty());
    let all = graph.shortest_paths();
    assert_eq!(all.len(), 6);
    assert_eq!(all[&1][&5], (20, vec![1, 3, 6, 5]));
}

#[test]
fn empty_graph_sorts_to_nothing() {
    let graph = Graph::new();
    assert_eq!(graph.topo_sort(), Some(vec![]));
    assert!(graph.vertices().is_empty());
    assert!(graph.shortest_paths().is_empty());
}

#[test]
fn default_graph_is_empty() {
    let mut graph: Graph = Default::default();
    assert!(graph.edges().is_empty());
    graph.extend(vec![(1, 2, 1), (2, 3, 1)]);
    assert_eq!(graph.topo_sort(), Some(vec![1, 2, 3]));
}
