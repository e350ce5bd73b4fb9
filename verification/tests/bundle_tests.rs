use monogirl::bundle::{
    build_dag, dag_dot, generate_bundle, hash_transaction_ids, hex_text, inspect_dag, parse_merkle_root,
    RootTextError,
};
use monogirl::math::merkle::MerkleTree;
use monogirl::program::utils::compute_hash;

fn hashes(n: u8) -> Vec<[u8; 32]> {
    (0..n).map(|i| [i + 1; 32]).collect()
}

#[test]
fn transaction_ids_hash_their_utf8_bytes() {
    let ids = vec!["abc".to_string(), "tx-2".to_string(), "ü".to_string()];
    let out = hash_transaction_ids(&ids);
    assert_eq!(out.len(), 3);
    assert_eq!(out[0], compute_hash(b"abc"));
    assert_eq!(out[1], compute_hash(b"tx-2"));
    assert_eq!(out[2], compute_hash("ü".as_bytes()));
}

#[test]
fn dag_of_a_bundle_is_a_chain() {
    let hs = hashes(4);
    let dag = build_dag(&hs);
    assert_eq!(dag.node_count(), 4);
    assert_eq!(dag.topological_sort().unwrap(), vec![0, 1, 2, 3]);
    assert_eq!(
        dag.find_parallel_groups().unwrap(),
        vec![vec![0], vec![1], vec![2], vec![3]]
    );
}

#[test]
fn summary_of_a_bundle() {
    let hs = hashes(3);
    let summary = generate_bundle(&hs, 420, 8);
    assert_eq!(summary.epoch, 420);
    assert_eq!(summary.max_depth, 8);
    assert_eq!(summary.leaf_count, 3);
    assert_eq!(summary.node_count, 3);
    assert_eq!(summary.parallel_groups, 3);
    let root = MerkleTree::new(hs.clone()).root();
    assert_eq!(summary.merkle_root, hex_text(&root));
    assert_eq!(summary.merkle_root.len(), 64);
}

#[test]
fn summary_of_an_empty_bundle() {
    let summary = generate_bundle(&[], 1, 2);
    assert_eq!(summary.leaf_count, 0);
    assert_eq!(summary.node_count, 0);
    assert_eq!(summary.parallel_groups, 1);
    assert_eq!(summary.merkle_root, "0".repeat(64));
}

#[test]
fn inspection_of_a_chain() {
    let report = inspect_dag(&hashes(5));
    assert_eq!(report.node_count, 5);
    assert_eq!(report.group_sizes, vec![1, 1, 1, 1, 1]);
    let empty = inspect_dag(&[]);
    assert_eq!(empty.node_count, 0);
    assert_eq!(empty.group_sizes, vec![0]);
}

#[test]
fn hex_text_is_lowercase_high_half_first() {
    let mut bytes = [0u8; 32];
    bytes[0] = 0xab;
    bytes[1] = 0x0f;
    bytes[31] = 0x10;
    let text = hex_text(&bytes);
    assert_eq!(&text[0..4], "ab0f");
    assert_eq!(&text[62..64], "10");
    assert_eq!(text.len(), 64);
}

#[test]
fn merkle_root_text_round_trips() {
    let mut bytes = [0u8; 32];
    for (i, b) in bytes.iter_mut().enumerate() {
        *b = (i * 7) as u8;
    }
    let text = hex_text(&bytes);
    assert_eq!(parse_merkle_root(&text), Ok(bytes));
    assert_eq!(parse_merkle_root(&text.to_uppercase()), Ok(bytes));
}

#[test]
fn merkle_root_text_errors() {
    assert_eq!(parse_merkle_root("abc"), Err(RootTextError::InvalidHex));
    assert_eq!(parse_merkle_root("zz"), Err(RootTextError::InvalidHex));
    assert_eq!(parse_merkle_root("abcd"), Err(RootTextError::WrongLength(2)));
    assert_eq!(parse_merkle_root(""), Err(RootTextError::WrongLength(0)));
    assert_eq!(parse_merkle_root(&"00".repeat(33)), Err(RootTextError::WrongLength(33)));
}

#[test]
fn dot_text_of_a_chain() {
    let text = dag_dot(&[[0xab; 32], [0x05; 32]]);
    assert_eq!(
        String::from_utf8(text).unwrap(),
        "digraph dag {\n  n0 [label=\"tx_ab\"];\n  n1 [label=\"tx_5\"];\n  n0 -> n1;\n}\n"
    );
    assert_eq!(String::from_utf8(dag_dot(&[])).unwrap(), "digraph dag {\n}\n");
    let many: Vec<[u8; 32]> = (0u8..12).map(|i| [i; 32]).collect();
    let text = String::from_utf8(dag_dot(&many)).unwrap();
    assert!(text.contains("  n11 [label=\"tx_b\"];\n  n10 -> n11;\n}\n"));
}
