use sha2::{Digest, Sha256};
use zk_sudoku::crypto::commitment_eq;
use zk_sudoku::graph::{hash, Edge, Graph, Keys};

#[test]
fn hash_matches_sha256_of_le_bytes() {
    let value: u8 = 7;
    let key: u64 = 0xdead_beef_0102_0304;
    let commitment = hash(value, key);

    let mut hasher = Sha256::new();
    hasher.update(((value as u64) ^ key).to_le_bytes());
    let expected = hasher.finalize();
    assert_eq!(commitment.bytes.as_slice(), expected.as_slice());
    assert_eq!(commitment.bytes.len(), 32);
}

#[test]
fn hash_depends_on_value_and_key() {
    let a = hash(1, 42);
    let b = hash(2, 42);
    let c = hash(1, 43);
    assert!(!commitment_eq(&a, &b));
    assert!(!commitment_eq(&a, &c));
    assert!(commitment_eq(&a, &hash(1, 42)));
}

fn small_graph() -> Graph<u8> {
    Graph { nodes: vec![3, 1, 4, 1, 5], edges: vec![Edge(0, 1), Edge(1, 2), Edge(0, 4)] }
}

#[test]
fn get_returns_both_endpoints() {
    let g = small_graph();
    let (a, b) = g.get(Edge(0, 4));
    assert_eq!((*a, *b), (3, 5));
    let (a, b) = g.get_copied(Edge(1, 2));
    assert_eq!((a, b), (1, 4));
}

#[test]
fn num_edges_counts_the_edge_list() {
    let g = small_graph();
    assert_eq!(g.num_edges(), 3);
}

#[test]
fn random_edge_comes_from_the_list() {
    let g = small_graph();
    for _ in 0..20 {
        let e = g.random_edge().unwrap();
        assert!(g.edges.contains(&e));
    }
    let empty = Graph::<u8> { nodes: vec![1], edges: vec![] };
    assert!(empty.random_edge().is_none());
}

#[test]
fn map_relabels_every_node() {
    let mut g = small_graph();
    let mapper: Vec<u8> = vec![0, 9, 8, 7, 6, 5, 4, 3, 2, 1];
    g.map(&mapper);
    assert_eq!(g.nodes, vec![7, 9, 6, 9, 5]);
    assert_eq!(g.edges.len(), 3);
}

#[test]
fn encrypt_commits_to_every_node() {
    let g = small_graph();
    let (commitments, keys) = g.encrypt();
    assert_eq!(commitments.len(), g.nodes.len());
    let Keys(key_vec) = &keys;
    assert_eq!(key_vec.len(), g.nodes.len());
    for (i, c) in commitments.iter().enumerate() {
        let expected = hash(g.nodes[i], key_vec[i]);
        assert!(commitment_eq(c, &expected));
    }
    let (first, second) = keys.get(Edge(0, 4));
    assert_eq!(first, key_vec[0]);
    assert_eq!(second, key_vec[4]);
}
