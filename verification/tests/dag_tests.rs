use essential_protein::dag::{weight_by_dag_topo, Dag};
use essential_protein::fixed::SCALE;
use essential_protein::graph::Graph;

fn small_dag() -> Dag {
    // child -> parent edges with relation weights at scale 10^4
    let edges = vec![
        (0, 1, 6_000),
        (0, 2, 8_000),
        (0, 3, 8_000),
        (1, 3, 8_000),
        (1, 4, 8_000),
        (2, 3, 6_000),
        (3, 4, 6_000),
    ];
    let annotations = vec![
        ("a".to_string(), vec![1, 2]),
        ("b".to_string(), vec![1, 3, 4]),
    ];
    Dag::new_from_parts(5, &edges, annotations).unwrap()
}

#[test]
fn test_get_all_ancestor() {
    let dag = small_dag();

    let anc0 = dag.get_ancestors(0);
    println!("0 ancestor: {:?}", anc0);
    assert_eq!(anc0, vec![0, 1, 2, 3, 4]);
    let anc1 = dag.get_ancestors(1);
    println!("0 ancestor: {:?}", anc1);
    assert_eq!(anc1, vec![1, 3, 4]);
    println!("dis 0: {:?}", dag.get_ancestor_distances(0));
    println!("dis 1: {:?}", dag.get_ancestor_distances(1));
    println!("LCA 0 1: {:?}", dag.find_lca(0, 1));
    assert_eq!(dag.find_lca(0, 1), Some(1));

    let res = dag.find_lca_with_paths(1, 2);
    println!("shortest path and lca {:?}", res);
    let (lca, p1, p2) = res.unwrap();
    assert_eq!(lca, 3);
    assert_eq!(p1, vec![1, 3]);
    assert_eq!(p2, vec![2, 3]);
}

#[test]
fn rejects_cyclic_relations() {
    let edges = vec![(0, 1, 8_000), (1, 2, 8_000), (2, 0, 8_000)];
    assert!(Dag::new_from_parts(3, &edges, vec![]).is_none());
}

#[test]
fn term_similarity_fixture() {
    // the four-term hierarchy: 1 -> {3: 0.8}, 2 -> {3: 0.8, 4: 0.8}
    let edges = vec![(1, 3, 8_000), (2, 3, 8_000), (2, 4, 8_000)];
    let annotations = vec![
        ("a".to_string(), vec![1, 2]),
        ("b".to_string(), vec![1, 3, 4]),
    ];
    let mut dag = Dag::new_from_parts(5, &edges, annotations).unwrap();

    // a term against itself scores 1; siblings share their reduced paths;
    // unrelated terms score 0
    assert_eq!(dag.get_sim(1, 1), 10_000);
    assert_eq!(dag.get_sim(1, 2), 4_444);
    assert_eq!(dag.get_sim(2, 1), 4_444);
    assert_eq!(dag.get_sim(1, 3), 4_444);
    let s14 = dag.get_sim(1, 4);
    assert_eq!(s14, 0);
    assert!(dag.get_sim(1, 2) <= SCALE);
}

#[test]
fn protein_similarity_fixture() {
    let edges = vec![(1, 3, 8_000), (2, 3, 8_000), (2, 4, 8_000)];
    let annotations = vec![
        ("a".to_string(), vec![1, 2]),
        ("b".to_string(), vec![1, 3, 4]),
    ];
    let mut dag = Dag::new_from_parts(5, &edges, annotations).unwrap();

    // (1.0 + 0.4444 + 1.0 + 0.4444 + 0.4444) / 5, truncated at each step
    let sim = dag.get_function_sim(&"a".to_string(), &"b".to_string());
    assert_eq!(sim, 6_666);

    // unannotated proteins score zero
    assert_eq!(dag.get_function_sim(&"a".to_string(), &"c".to_string()), 0);
}

#[test]
fn protein_similarity_is_idempotent() {
    let edges = vec![(1, 3, 8_000), (2, 3, 8_000), (2, 4, 8_000)];
    let annotations = vec![
        ("a".to_string(), vec![1, 2]),
        ("b".to_string(), vec![1, 3, 4]),
    ];
    let mut dag = Dag::new_from_parts(5, &edges, annotations).unwrap();

    // the first call computes and caches, the second reads the cache:
    // both match, and both match a recomputation on a fresh hierarchy
    let first = dag.get_function_sim(&"a".to_string(), &"b".to_string());
    let second = dag.get_function_sim(&"a".to_string(), &"b".to_string());
    assert_eq!(first, second);

    let edges2 = vec![(1, 3, 8_000), (2, 3, 8_000), (2, 4, 8_000)];
    let annotations2 = vec![
        ("a".to_string(), vec![1, 2]),
        ("b".to_string(), vec![1, 3, 4]),
    ];
    let mut fresh = Dag::new_from_parts(5, &edges2, annotations2).unwrap();
    assert_eq!(first, fresh.get_function_sim(&"a".to_string(), &"b".to_string()));
}

#[test]
fn term_similarity_is_symmetric() {
    let edges = vec![(1, 3, 8_000), (2, 3, 8_000), (2, 4, 8_000), (0, 1, 6_000)];
    let annotations = vec![];
    let mut dag = Dag::new_from_parts(5, &edges, annotations).unwrap();
    for a in 0..5 {
        for b in 0..5 {
            let ab = dag.get_sim(a, b);
            let ba = dag.get_sim(b, a);
            assert_eq!(ab, ba);
            let cab = dag.get_sim_child(a, b);
            let cba = dag.get_sim_child(b, a);
            assert_eq!(cab, cba);
        }
    }
}

#[test]
fn descendant_similarity_fixture() {
    let edges = vec![(1, 3, 8_000), (2, 3, 8_000), (2, 4, 8_000)];
    let annotations = vec![];
    let mut dag = Dag::new_from_parts(5, &edges, annotations).unwrap();
    // descendants: 3 has {1, 2}, 4 has {2}; shared {2}, union {1, 2}
    assert_eq!(dag.get_sim_child(3, 4), 20_000);
    // terms without descendants score zero
    assert_eq!(dag.get_sim_child(1, 3), 0);
}

#[test]
fn add_edge_respects_the_level_witness() {
    let mut dag = small_dag();
    // a new edge towards a higher level is taken, one that would close a
    // cycle is refused
    assert!(dag.add_edge(2, 4, 6_000));
    assert!(!dag.add_edge(4, 0, 8_000));
    assert_eq!(dag.get_ancestors(2), vec![2, 3, 4]);
}

#[test]
fn ancestor_distances_fixture() {
    let dag = small_dag();
    let (reached, dist) = dag.get_ancestor_distances(0);
    assert_eq!(reached, vec![true, true, true, true, true]);
    assert_eq!(dist, vec![0, 1, 1, 1, 2]);
    let (reached, dist) = dag.get_ancestor_distances(4);
    assert_eq!(reached, vec![false, false, false, false, true]);
    assert_eq!(dist[4], 0);
}

#[test]
fn reweighting_blends_and_prunes() {
    let g_edges = vec![
        ("x".to_string(), "y".to_string(), 9_000),
        ("y".to_string(), "z".to_string(), 9_000),
    ];
    let mut g = Graph::new_from_named_edges(&g_edges).unwrap();
    let d_edges = vec![(1, 2, 8_000)];
    let annotations = vec![
        ("x".to_string(), vec![1]),
        ("y".to_string(), vec![1]),
    ];
    let mut dag = Dag::new_from_parts(3, &d_edges, annotations).unwrap();

    weight_by_dag_topo(&mut g, &mut dag, 5_000);
    // x and y share their single term: functional similarity 1, topological
    // similarity 0, blended at one half
    assert!(g.has_edge(0, 1));
    assert_eq!(g.edge_weight(0, 1), Some(5_000));
    // z is unannotated: the y–z edge is pruned
    assert!(!g.has_edge(1, 2));
}
