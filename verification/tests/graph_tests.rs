use essential_protein::cen::Centrality;
use essential_protein::fixed::{Ratio, SCALE};
use essential_protein::graph::Graph;

#[test]
fn test_graph_new_from() {
    let edges = [(1, 2, 1_000), (0, 1, 3_000), (1, 4, 5_000), (2, 4, 6_000)];
    let graph = Graph::new_from(edges.to_vec());
    println!("{:?}", graph);
    assert_eq!(graph.node_count, 5);
    assert_eq!(graph.edge_count, 4);
}

#[test]
fn test_graph_add_edge() {
    let mut graph = Graph::new(5);
    graph.add_edge(1, 2, SCALE);
    assert!(graph.has_edge(1, 2));
    graph.add_edge(0, 2, SCALE);
    assert!(graph.has_edge(0, 2));
    graph.add_edge(1, 4, SCALE);
    assert!(graph.has_edge(1, 4));
    graph.add_edge(2, 3, SCALE);
    assert!(graph.has_edge(2, 3));
    assert!(graph.node_count == 5);
    assert!(graph.edge_count == 4);
    println!("{:?}", graph);
}

#[test]
fn add_edge_is_symmetric_and_counts_once() {
    let mut g = Graph::new(4);
    g.add_edge(0, 1, 6_000);
    assert!(g.has_edge(0, 1));
    assert!(g.has_edge(1, 0));
    assert_eq!(g.edge_count, 1);
    // writing the same edge again overwrites the weight, the count stays
    g.add_edge(1, 0, 9_000);
    assert_eq!(g.edge_count, 1);
    assert_eq!(g.edge_weight(0, 1), Some(9_000));
    assert_eq!(g.edge_weight(1, 0), Some(9_000));
    g.remove_edge(0, 1);
    assert!(!g.has_edge(0, 1));
    assert_eq!(g.edge_count, 0);
}

#[test]
fn jaccard_counts_shared_neighbours() {
    let mut g = Graph::new(5);
    g.add_edge(0, 2, SCALE);
    g.add_edge(0, 3, SCALE);
    g.add_edge(1, 3, SCALE);
    g.add_edge(1, 4, SCALE);
    // N(0) = {2, 3}, N(1) = {3, 4}: one shared of three
    let r = g.jaccard(0, 1);
    assert_eq!(r, Ratio { num: 1, den: 3 });
    let rp = g.jaccard_plus(0, 1);
    // with the endpoints added: {0, 2, 3} and {1, 3, 4}: one of five
    assert_eq!(rp, Ratio { num: 1, den: 5 });
}

#[test]
fn named_edges_assign_indices_at_first_sight() {
    let edges = vec![
        ("b".to_string(), "a".to_string(), 5_000),
        ("c".to_string(), "a".to_string(), 7_000),
    ];
    let g = Graph::new_from_named_edges(&edges).unwrap();
    assert_eq!(g.id_protein, vec!["b".to_string(), "a".to_string(), "c".to_string()]);
    assert_eq!(g.node_count, 3);
    assert!(g.has_edge(0, 1));
    assert!(g.has_edge(2, 1));
    assert!(!g.has_edge(0, 2));
    assert_eq!(g.edge_weight(1, 2), Some(7_000));
}

#[test]
fn subgraph_keeps_exactly_induced_edges() {
    let edges = vec![
        ("a".to_string(), "b".to_string(), 1_000),
        ("b".to_string(), "c".to_string(), 2_000),
        ("c".to_string(), "d".to_string(), 3_000),
        ("a".to_string(), "d".to_string(), 4_000),
    ];
    let g = Graph::new_from_named_edges(&edges).unwrap();
    let nodes = vec!["a".to_string(), "b".to_string(), "c".to_string()];
    let sub = g.subgraph(&nodes);
    assert_eq!(sub.node_count, 3);
    assert_eq!(sub.id_protein, nodes);
    // a–b and b–c are induced; a–d and c–d leave with d
    assert!(sub.has_edge(0, 1));
    assert!(sub.has_edge(1, 2));
    assert!(!sub.has_edge(0, 2));
    assert_eq!(sub.edge_weight(0, 1), Some(1_000));
    assert_eq!(sub.edge_weight(1, 2), Some(2_000));
    assert_eq!(sub.edge_count, 2);
}

#[test]
fn test_degree_centrality() {
    let edges = [(1, 2, 1_000), (0, 1, 3_000), (1, 4, 5_000), (2, 4, 6_000)];
    let graph = Graph::new_from(edges.to_vec());
    let res = graph.degree_centrality();
    assert_eq!(res, vec![1, 4, 2, 0, 3]);
}
