use essential_protein::eva::{update_by_cohesion, Complex};
use essential_protein::fixed::{log10_fixed, Ratio, SCALE};
use essential_protein::graph::Graph;
use essential_protein::pcegs::pcegs;

#[test]
fn test_update_by_cohesion() {
    let complexes = vec![
        Complex::new(vec![1, 2, 3, 4, 5], Ratio { num: 8, den: 10 }),
        Complex::new(vec![1, 2, 3, 4], Ratio { num: 9, den: 10 }),
    ];
    let res = update_by_cohesion(complexes);
    println!("{:?}", res);
    // the larger complex overlaps the kept one (4 of 5 shared), so only one
    // survives the greedy pass, and the first half of one complex is none
    assert_eq!(res.len(), 0);
}

#[test]
fn test_complex_os() {
    let c1 = Complex::new(vec![1, 2, 3, 4], Ratio { num: 0, den: 1 });
    let c2 = Complex::new(vec![2, 3, 4], Ratio { num: 0, den: 1 });
    let (shared, os) = c1.overlap_score(&c2);
    println!("{:?}", (shared, os));
    assert_eq!(shared, 3);
    assert_eq!(os, Ratio { num: 9, den: 12 });
}

#[test]
fn overlap_is_symmetric() {
    let c1 = Complex::new(vec![1, 2, 3, 4], Ratio { num: 0, den: 1 });
    let c2 = Complex::new(vec![2, 3, 4], Ratio { num: 0, den: 1 });
    let c3 = Complex::new(vec![7, 8, 9], Ratio { num: 0, den: 1 });
    assert_eq!(c1.is_overlapped(&c2), c2.is_overlapped(&c1));
    assert!(c1.is_overlapped(&c2));
    assert!(!c1.is_overlapped(&c3));
    assert!(!c3.is_overlapped(&c1));
}

#[test]
fn dedup_retains_by_the_greedy_rule() {
    // four complexes with known pairwise overlaps: the second overlaps the
    // first and falls; the other two stand apart; of the three survivors
    // the first half by cohesion is one
    let complexes = vec![
        Complex::new(vec![1, 2, 3], Ratio { num: 9, den: 10 }),
        Complex::new(vec![1, 2, 4], Ratio { num: 8, den: 10 }),
        Complex::new(vec![10, 11, 12, 13], Ratio { num: 7, den: 10 }),
        Complex::new(vec![20, 21, 22], Ratio { num: 5, den: 10 }),
    ];
    let res = update_by_cohesion(complexes);
    assert_eq!(res.len(), 1);
    assert_eq!(res[0].proteins, vec![1, 2, 3]);
    assert_eq!(res[0].cohesion, Ratio { num: 9, den: 10 });
}

#[test]
fn empty_complexes_do_not_overlap() {
    let c1 = Complex::new(vec![], Ratio { num: 0, den: 1 });
    let c2 = Complex::new(vec![], Ratio { num: 0, den: 1 });
    let c3 = Complex::new(vec![1, 2, 3], Ratio { num: 0, den: 1 });
    assert!(!c1.is_overlapped(&c2));
    assert!(!c1.is_overlapped(&c3));
    assert!(!c3.is_overlapped(&c1));
    assert!(c3.is_overlapped(&c3));
}

#[test]
fn dedup_is_stable_on_equal_cohesion() {
    // five disjoint complexes of one cohesion: the sort may not reorder
    // them, all survive the greedy pass, and the first half keeps the
    // first two in input order
    let complexes = vec![
        Complex::new(vec![1, 2, 3], Ratio { num: 5, den: 10 }),
        Complex::new(vec![4, 5, 6], Ratio { num: 5, den: 10 }),
        Complex::new(vec![7, 8, 9], Ratio { num: 5, den: 10 }),
        Complex::new(vec![10, 11, 12], Ratio { num: 5, den: 10 }),
        Complex::new(vec![13, 14, 15], Ratio { num: 5, den: 10 }),
    ];
    let res = update_by_cohesion(complexes);
    assert_eq!(res.len(), 2);
    assert_eq!(res[0].proteins, vec![1, 2, 3]);
    assert_eq!(res[1].proteins, vec![4, 5, 6]);
}

#[test]
fn test_cohesion() {
    let g = Graph::new_from(vec![(0, 1, 6_000), (1, 2, 8_000), (3, 4, 1_000)]);

    let cluster = vec![0, 1, 2, 4];
    let cohesion = g.calculate_cohesion(&cluster);
    println!("cohesion: {:?}", cohesion);
    // (0.6·2 + 1.4·3 + 0.8·2 + 0) / 4 / 4 = 0.4375: at scale 10^4 the
    // numerator carries the scale, so the exact ratio is 70000 / 16
    assert_eq!(cohesion, Ratio { num: 70_000, den: 16 });
    assert_eq!(cohesion.num / cohesion.den, 4_375);
}

#[test]
fn test_cc() {
    let mut g = Graph::new_from(vec![
        (0, 1, 1_000),
        (0, 2, 1_000),
        (0, 3, 1_000),
        (1, 2, 1_000),
        (1, 3, 1_000),
        (2, 3, 1_000),
    ]);
    let c0 = g.clustering_coefficient(0);
    println!("{:?}", c0);
    assert_eq!(c0, Ratio { num: 6, den: 6 });
    println!("{:?}", g.all_cc());

    g.remove_edge(1, 2);
    g.remove_edge(1, 3);
    let c0 = g.clustering_coefficient(0);
    assert_eq!(c0, Ratio { num: 2, den: 6 });

    let seed = g.cc_sort();
    println!("{:?}", seed);
    // node 0: neighbours {1,2,3}, one joined pair left; nodes 2 and 3 keep
    // coefficient 1; node 1 has a single neighbour
    assert_eq!(seed, vec![2, 3, 0, 1]);
}

#[test]
fn log10_fixed_values() {
    // log10(1) = 0, log10(10) = 1, log10(2) = 0.3010...
    assert_eq!(log10_fixed(SCALE), 0);
    assert_eq!(log10_fixed(10 * SCALE), SCALE);
    assert_eq!(log10_fixed(2 * SCALE), 3_010);
}

#[test]
fn pcegs_essential_restricts_cores() {
    let edges = vec![
        ("a".to_string(), "b".to_string(), 8_000),
        ("b".to_string(), "c".to_string(), 8_000),
        ("a".to_string(), "c".to_string(), 8_000),
        ("c".to_string(), "d".to_string(), 8_000),
    ];
    let g = essential_protein::graph::Graph::new_from_named_edges(&edges).unwrap();
    // no protein in the reference set: nothing can seed
    let none = essential_protein::pcegs::pcegs_essential(&g, 4_000, &vec![]);
    assert_eq!(none.len(), 0);
}

#[test]
fn pcegs_on_two_cliques() {
    // two triangles joined by one weak edge
    let edges = vec![
        ("a".to_string(), "b".to_string(), 8_000),
        ("b".to_string(), "c".to_string(), 8_000),
        ("a".to_string(), "c".to_string(), 8_000),
        ("c".to_string(), "d".to_string(), 1_000),
        ("d".to_string(), "e".to_string(), 8_000),
        ("e".to_string(), "f".to_string(), 8_000),
        ("d".to_string(), "f".to_string(), 8_000),
    ];
    let g = Graph::new_from_named_edges(&edges).unwrap();
    let complexes = pcegs(&g, 4_000);
    println!("{:?}", complexes);
    for c in complexes.iter() {
        assert!(c.proteins.len() >= 3);
    }
}
