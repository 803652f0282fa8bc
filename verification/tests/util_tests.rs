use essential_protein::bimap::BiMap;
use essential_protein::errors::Errors;
use essential_protein::matrix::Matrix;
use essential_protein::options::Options;
use essential_protein::union_find::UnionFind;

#[test]
fn union_main() {
    let n = 6;
    let edges = vec![(0, 1), (1, 2), (3, 4)];

    let mut uf = UnionFind::new(n);
    for (u, v) in edges {
        uf.union(u, v);
    }

    let components = uf.get_components();
    println!("Connected components:");
    for (i, comp) in components.iter().enumerate() {
        println!("Component {}: {:?}", i + 1, comp);
    }
    assert_eq!(components.len(), 3);
}

#[test]
fn union_find_connected() {
    let mut uf = UnionFind::new(3);
    assert!(!uf.is_connected());
    uf.union(0, 1);
    uf.union(1, 2);
    assert!(uf.is_connected());
    assert_eq!(uf.find(2), 0);
    assert_eq!(uf.find(1), 0);
}

#[test]
fn options_new_test() {
    let options = Options::new("collins");
    assert_eq!(options.ppi_file, String::from("./data/collins/collins.txt"));
    assert_eq!(
        options.clique_file,
        String::from("./data/collins/collins_clique.txt")
    );
    assert_eq!(
        options.label_file,
        String::from("./data/collins/collins_label.txt")
    );
}

#[test]
fn bimap_into_vec_test() {
    let mut bimap = BiMap::new();
    bimap.insert(String::from("a"));
    bimap.insert(String::from("b"));
    bimap.insert(String::from("c"));
    bimap.insert(String::from("d"));

    let v = bimap.into_vec();
    assert_eq!(v.len(), 4);
    assert_eq!(
        v,
        vec![
            String::from("a"),
            String::from("b"),
            String::from("c"),
            String::from("d")
        ]
    );
    println!("{:?}", v);
}

#[test]
fn bimap_test() {
    let mut bmap = BiMap::new();
    let id = bmap.insert("Hello".to_string());
    assert_eq!(id, 0);
    let id = bmap.get_id(&"Hello".to_string());
    assert_eq!(id, Some(0));
    let entity = bmap.get_entity(0);
    assert_eq!(entity, Some("Hello".to_string()));

    let id = bmap.insert("World".to_string());
    assert_eq!(id, 1);
    let id = bmap.get_id(&"World".to_string());
    assert_eq!(id, Some(1));
    let entity = bmap.get_entity(1);
    assert_eq!(entity, Some("World".to_string()));

    bmap.remove_by_entity(&"World".to_string());
    assert_eq!(None, bmap.get_entity(1));
    assert_eq!(None, bmap.get_id(&"World".to_string()));

    bmap.remove_by_id(0);
    assert_eq!(None, bmap.get_entity(0));
    assert_eq!(None, bmap.get_id(&"Hello".to_string()));
}

#[test]
fn bimap_ids_and_entitys() {
    let mut bmap = BiMap::new();
    bmap.insert("x".to_string());
    bmap.insert("y".to_string());
    assert_eq!(bmap.len(), 2);
    assert!(bmap.contains_entity(&"x".to_string()));
    assert!(!bmap.contains_entity(&"z".to_string()));
    assert_eq!(bmap.ids(), vec![0, 1]);
    assert_eq!(bmap.entitys(), vec!["x".to_string(), "y".to_string()]);
}

#[test]
fn options_default_test() {
    let options = Options::default();
    assert_eq!(options.ppi_file, String::from("./data/collins/collins.txt"));
    assert_eq!(
        options.clique_file,
        String::from("./data/collins/collins_clique.txt")
    );
    assert_eq!(
        options.label_file,
        String::from("./data/collins/collins_label.txt")
    );
    assert_eq!(options.min_size, 3);
}

#[test]
fn bimap_unmapped_slot_is_empty() {
    let mut bmap = BiMap::new();
    bmap.insert("a".to_string());
    bmap.insert("b".to_string());
    bmap.remove_by_id(0);
    // index 1 is the only live id: slot 0 of the dense vector is unmapped
    // and holds the empty string
    assert_eq!(bmap.ids(), vec![1]);
    let v = bmap.into_vec();
    assert_eq!(v, vec![String::new()]);
}

#[test]
fn matrix_new() {
    let mut a = Matrix::new(vec![1, 2, 3, 4, 5, 6], 2, 3);
    assert_eq!(a.index(0, 1), 2);
    assert_eq!(a.index(1, 1), 5);

    let b = Matrix::new(vec![1, 2, 3, 4, 5, 6], 2, 3);
    assert_eq!(
        Matrix::new(vec![2, 4, 6, 8, 10, 12], 2, 3),
        a.clone().plus(&b)
    );

    a.plus_assign(&b);
    assert_eq!(Matrix::new(vec![2, 4, 6, 8, 10, 12], 2, 3), a);
}

#[test]
fn error_messages() {
    assert_eq!(Errors::FailedToReadPPIFile.message(), "Failed to open PPI file");
    assert_eq!(Errors::FailedToParseLabel.message(), "Failed to parse string");
    assert_eq!(
        Errors::FailedToReadLableFile.message(),
        "Failed to read label file"
    );
}
