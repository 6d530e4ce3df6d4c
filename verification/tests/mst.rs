use std::collections::HashSet;
use stobga::geom::Point;
use stobga::graph::{Graph, Edge};

fn p(x: i64, y: i64) -> Point {
    Point { x, y }
}

#[test]
fn hashing_edges() {
    let e1 = Edge::new(p(0, 0), p(10000, 10000));
    let e2 = Edge::new(p(10000, 10000), p(0, 0));
    let mut set = HashSet::new();
    set.insert(e1);
    set.insert(e2);
    assert!(set.len() == 1);
}

#[test]
fn making_a_graph() {
    let mut graph = Graph::new();
    graph.add_edge_from_points(p(0, 0), p(10000, 10000), 10000);
    graph.add_edge_from_points(p(20000, 0), p(10000, 10000), 10000);
    graph.add_edge_from_points(p(0, 0), p(10000, 0), 10000);
    println!("{:?}", graph.edges_connected_to_point(p(10000, 10000)));
}

#[test]
fn trivial_mst() {
    let mut graph = Graph::new();
    graph.add_edge_from_points(p(0, 0), p(0, 10000), 10000);
    graph.add_edge_from_points(p(10000, 10000), p(0, 10000), 10000);
    let mst = graph.minimum_spanning_tree();
    assert_eq!(mst.nodes.len(), 3);
    assert_eq!(mst.edges.len(), 2);
}

#[test]
fn advanced_mst() {
    let mut graph = Graph::new();
    graph.add_edge_from_points(p(0, 0), p(0, 10000), 1);
    graph.add_edge_from_points(p(0, 0), p(10000, 10000), 2);
    graph.add_edge_from_points(p(0, 0), p(10000, 0), 3);
    graph.add_edge_from_points(p(10000, 10000), p(0, 10000), 4);
    graph.add_edge_from_points(p(10000, 10000), p(10000, 0), 5);
    graph.add_edge_from_points(p(10000, 0), p(0, 10000), 6);
    let mst = graph.minimum_spanning_tree();
    assert_eq!(mst.nodes.len(), 4);
    assert_eq!(mst.edges.len(), 3);
    println!("{:?}", mst.edges);
    assert_eq!(mst.total_weight, 6);
}

#[test]
fn mst_picks_the_light_edges() {
    let mut graph = Graph::new();
    graph.add_edge_from_points(p(0, 0), p(0, 10000), 1);
    graph.add_edge_from_points(p(0, 0), p(10000, 10000), 2);
    graph.add_edge_from_points(p(0, 0), p(10000, 0), 3);
    graph.add_edge_from_points(p(10000, 10000), p(0, 10000), 4);
    graph.add_edge_from_points(p(10000, 10000), p(10000, 0), 5);
    graph.add_edge_from_points(p(10000, 0), p(0, 10000), 6);
    let mst = graph.minimum_spanning_tree();
    let kept: Vec<i64> = mst.edges.iter().map(|e| e.2).collect();
    assert_eq!(kept, vec![1, 2, 3]);
}

#[test]
fn mst_single_node() {
    let mut graph = Graph::new();
    graph.add_edge_from_points(p(5, 5), p(5, 5), 0);
    let mst = graph.minimum_spanning_tree();
    assert_eq!(mst.nodes.len(), 1);
    assert_eq!(mst.edges.len(), 0);
    assert_eq!(mst.total_weight, 0);
}
