use monogirl::math::analyzer::AccountSetAnalyzer;
use monogirl::math::dag::{DagNode, DagScheduler, SchedulerError};
use monogirl::math::merkle::MerkleTree;
use monogirl::program::utils::{combine_hashes, compute_hash};
use sha2::{Digest, Sha256};

fn node(id: u64, deps: Vec<u64>, keys: Vec<[u8; 32]>) -> DagNode {
    DagNode {
        id,
        tx_hash: [id as u8; 32],
        dependencies: deps,
        account_keys: keys,
        weight: 1,
    }
}

#[test]
fn test_merkle_tree_single_leaf() {
    let data = vec![[1u8; 32]];
    let tree = MerkleTree::new(data.clone());
    let root = tree.root();
    assert_ne!(root, [0u8; 32]);
}

#[test]
fn test_merkle_tree_proof_verification() {
    let leaves: Vec<[u8; 32]> = (0..4)
        .map(|i| {
            let mut h = Sha256::new();
            h.update([i as u8]);
            h.finalize().into()
        })
        .collect();

    let tree = MerkleTree::new(leaves.clone());
    let root = tree.root();

    for i in 0..leaves.len() {
        let proof = tree.inclusion_proof(i).unwrap();
        assert!(MerkleTree::verify(root, leaves[i], &proof, i));
    }
}

#[test]
fn test_dag_topological_sort() {
    let mut scheduler = DagScheduler::new();
    scheduler.add_node(DagNode {
        id: 1,
        tx_hash: [1u8; 32],
        dependencies: vec![],
        account_keys: vec![],
        weight: 1,
    });
    scheduler.add_node(DagNode {
        id: 2,
        tx_hash: [2u8; 32],
        dependencies: vec![1],
        account_keys: vec![],
        weight: 1,
    });
    scheduler.add_node(DagNode {
        id: 3,
        tx_hash: [3u8; 32],
        dependencies: vec![1],
        account_keys: vec![],
        weight: 1,
    });
    scheduler.add_node(DagNode {
        id: 4,
        tx_hash: [4u8; 32],
        dependencies: vec![2, 3],
        account_keys: vec![],
        weight: 1,
    });

    let sorted = scheduler.topological_sort().unwrap();
    assert_eq!(sorted.len(), 4);
    assert_eq!(sorted[0], 1);
    assert_eq!(sorted[sorted.len() - 1], 4);
}

#[test]
fn test_dag_parallel_groups() {
    let mut scheduler = DagScheduler::new();
    scheduler.add_node(DagNode {
        id: 1,
        tx_hash: [1u8; 32],
        dependencies: vec![],
        account_keys: vec![],
        weight: 1,
    });
    scheduler.add_node(DagNode {
        id: 2,
        tx_hash: [2u8; 32],
        dependencies: vec![],
        account_keys: vec![],
        weight: 1,
    });
    scheduler.add_node(DagNode {
        id: 3,
        tx_hash: [3u8; 32],
        dependencies: vec![1, 2],
        account_keys: vec![],
        weight: 1,
    });

    let groups = scheduler.find_parallel_groups().unwrap();
    assert_eq!(groups.len(), 2);
    assert_eq!(groups[0].len(), 2);
    assert_eq!(groups[1].len(), 1);
}

#[test]
fn test_account_independence() {
    let mut scheduler = DagScheduler::new();
    scheduler.add_node(DagNode {
        id: 1,
        tx_hash: [1u8; 32],
        dependencies: vec![],
        account_keys: vec![[1u8; 32], [2u8; 32]],
        weight: 1,
    });
    scheduler.add_node(DagNode {
        id: 2,
        tx_hash: [2u8; 32],
        dependencies: vec![],
        account_keys: vec![[3u8; 32], [4u8; 32]],
        weight: 1,
    });
    assert!(scheduler.check_account_independence(1, 2));
}

#[test]
fn test_account_conflict() {
    let mut scheduler = DagScheduler::new();
    scheduler.add_node(DagNode {
        id: 1,
        tx_hash: [1u8; 32],
        dependencies: vec![],
        account_keys: vec![[1u8; 32], [2u8; 32]],
        weight: 1,
    });
    scheduler.add_node(DagNode {
        id: 2,
        tx_hash: [2u8; 32],
        dependencies: vec![],
        account_keys: vec![[2u8; 32], [3u8; 32]],
        weight: 1,
    });
    assert!(!scheduler.check_account_independence(1, 2));
}

#[test]
fn test_account_set_analyzer() {
    let mut analyzer = AccountSetAnalyzer::new();
    analyzer.add_edge(1, 2);
    analyzer.add_edge(2, 3);
    analyzer.add_edge(3, 4);

    let parts = analyzer.partition(2);
    assert_eq!(parts.len(), 2);
    assert_eq!(analyzer.vertex_count(), 4);
    assert_eq!(analyzer.edge_count(), 3);
}

#[test]
fn test_cycle_detection() {
    let mut scheduler = DagScheduler::new();
    scheduler.add_node(DagNode {
        id: 1,
        tx_hash: [1u8; 32],
        dependencies: vec![2],
        account_keys: vec![],
        weight: 1,
    });
    scheduler.add_node(DagNode {
        id: 2,
        tx_hash: [2u8; 32],
        dependencies: vec![1],
        account_keys: vec![],
        weight: 1,
    });

    assert!(scheduler.topological_sort().is_err());
}

// ---------------------------------------------------------------------------
// Merkle trees
// ---------------------------------------------------------------------------

#[test]
fn merkle_root_of_no_leaves_is_zero() {
    let tree = MerkleTree::new(vec![]);
    assert_eq!(tree.root(), [0u8; 32]);
    assert_eq!(tree.leaf_count(), 0);
    assert!(tree.inclusion_proof(0).is_none());
}

#[test]
fn merkle_root_of_one_leaf_is_the_leaf() {
    let leaf = [7u8; 32];
    let tree = MerkleTree::new(vec![leaf]);
    assert_eq!(tree.root(), leaf);
    assert_eq!(tree.inclusion_proof(0).unwrap().len(), 0);
}

#[test]
fn merkle_root_pairs_leaves_and_doubles_the_odd_one() {
    let a = [1u8; 32];
    let b = [2u8; 32];
    let c = [3u8; 32];
    let tree = MerkleTree::new(vec![a, b, c]);
    let expected = combine_hashes(&combine_hashes(&a, &b), &combine_hashes(&c, &c));
    assert_eq!(tree.root(), expected);
    assert_eq!(tree.leaf_count(), 3);
}

#[test]
fn merkle_proof_lists_siblings_bottom_up() {
    let a = [1u8; 32];
    let b = [2u8; 32];
    let c = [3u8; 32];
    let tree = MerkleTree::new(vec![a, b, c]);
    let proof = tree.inclusion_proof(2).unwrap();
    assert_eq!(proof, vec![c, combine_hashes(&a, &b)]);
    assert!(tree.inclusion_proof(3).is_none());
}

#[test]
fn merkle_verify_rejects_a_wrong_leaf_or_position() {
    let leaves: Vec<[u8; 32]> = (0u8..5).map(|i| compute_hash(&[i])).collect();
    let tree = MerkleTree::new(leaves.clone());
    let root = tree.root();
    for i in 0..leaves.len() {
        let proof = tree.inclusion_proof(i).unwrap();
        assert!(MerkleTree::verify(root, leaves[i], &proof, i));
        assert!(!MerkleTree::verify(root, [9u8; 32], &proof, i));
    }
    let proof0 = tree.inclusion_proof(0).unwrap();
    assert!(!MerkleTree::verify(root, leaves[0], &proof0, 1));
}

// ---------------------------------------------------------------------------
// Dependency graph
// ---------------------------------------------------------------------------

#[test]
fn empty_graph_sorts_to_nothing_and_has_one_empty_group() {
    let scheduler = DagScheduler::default();
    assert_eq!(scheduler.topological_sort().unwrap(), Vec::<u64>::new());
    assert_eq!(scheduler.find_parallel_groups().unwrap(), vec![Vec::<u64>::new()]);
    assert_eq!(scheduler.node_count(), 0);
}

#[test]
fn dependencies_come_before_dependents() {
    let mut scheduler = DagScheduler::new();
    scheduler.add_node(node(5, vec![3, 4], vec![]));
    scheduler.add_node(node(3, vec![], vec![]));
    scheduler.add_node(node(4, vec![3], vec![]));
    let sorted = scheduler.topological_sort().unwrap();
    assert_eq!(sorted, vec![3, 4, 5]);
    let groups = scheduler.find_parallel_groups().unwrap();
    assert_eq!(groups, vec![vec![3], vec![4], vec![5]]);
}

#[test]
fn missing_dependency_counts_as_cycle() {
    let mut scheduler = DagScheduler::new();
    scheduler.add_node(node(1, vec![], vec![]));
    scheduler.add_node(node(2, vec![99], vec![]));
    assert_eq!(scheduler.topological_sort(), Err(SchedulerError::CycleDetected));
    assert_eq!(scheduler.find_parallel_groups(), Err(SchedulerError::CycleDetected));
}

#[test]
fn self_dependency_is_a_cycle() {
    let mut scheduler = DagScheduler::new();
    scheduler.add_node(node(1, vec![1], vec![]));
    assert_eq!(scheduler.find_parallel_groups(), Err(SchedulerError::CycleDetected));
}

#[test]
fn adding_a_node_again_replaces_it() {
    let mut scheduler = DagScheduler::new();
    scheduler.add_node(node(1, vec![], vec![[1u8; 32]]));
    scheduler.add_node(node(2, vec![], vec![[2u8; 32]]));
    assert!(scheduler.check_account_independence(1, 2));
    scheduler.add_node(node(1, vec![], vec![[2u8; 32]]));
    assert_eq!(scheduler.node_count(), 2);
    assert!(!scheduler.check_account_independence(1, 2));
}

#[test]
fn independence_needs_both_nodes_and_is_symmetric() {
    let mut scheduler = DagScheduler::new();
    scheduler.add_node(node(1, vec![], vec![[1u8; 32]]));
    scheduler.add_node(node(2, vec![], vec![[3u8; 32]]));
    assert!(!scheduler.check_account_independence(1, 7));
    assert!(!scheduler.check_account_independence(7, 1));
    assert_eq!(
        scheduler.check_account_independence(1, 2),
        scheduler.check_account_independence(2, 1)
    );
}

#[test]
fn groups_place_each_node_one_level_above_its_highest_dependency() {
    let mut scheduler = DagScheduler::new();
    scheduler.add_node(node(1, vec![], vec![]));
    scheduler.add_node(node(2, vec![1], vec![]));
    scheduler.add_node(node(3, vec![2], vec![]));
    scheduler.add_node(node(4, vec![1, 3], vec![]));
    scheduler.add_node(node(5, vec![], vec![]));
    let groups = scheduler.find_parallel_groups().unwrap();
    assert_eq!(groups.len(), 4);
    let mut level0 = groups[0].clone();
    level0.sort();
    assert_eq!(level0, vec![1, 5]);
    assert_eq!(groups[1], vec![2]);
    assert_eq!(groups[2], vec![3]);
    assert_eq!(groups[3], vec![4]);
}

// ---------------------------------------------------------------------------
// Account set analyzer
// ---------------------------------------------------------------------------

#[test]
fn partition_keeps_vertex_order_in_even_chunks() {
    let mut analyzer = AccountSetAnalyzer::default();
    analyzer.add_edge(10, 20);
    analyzer.add_edge(30, 40);
    analyzer.add_edge(50, 10);
    let parts = analyzer.partition(2);
    assert_eq!(parts, vec![vec![10, 20, 30], vec![40, 50]]);
    let parts = analyzer.partition(3);
    assert_eq!(parts, vec![vec![10, 20], vec![30, 40], vec![50]]);
    let parts = analyzer.partition(10);
    assert_eq!(parts, vec![vec![10], vec![20], vec![30], vec![40], vec![50]]);
}

#[test]
fn repeated_accounts_are_one_vertex() {
    let mut analyzer = AccountSetAnalyzer::new();
    analyzer.add_edge(1, 1);
    analyzer.add_edge(1, 2);
    analyzer.add_edge(2, 1);
    assert_eq!(analyzer.vertex_count(), 2);
    assert_eq!(analyzer.edge_count(), 3);
}

#[test]
fn triangle_conflicts_are_found_once_each() {
    let mut analyzer = AccountSetAnalyzer::new();
    analyzer.add_edge(1, 2);
    analyzer.add_edge(2, 3);
    analyzer.add_edge(3, 1);
    let conflicts = analyzer.find_conflicts();
    assert_eq!(conflicts, vec![(1, 2), (1, 3), (2, 3)]);
}

#[test]
fn a_path_has_no_conflicts() {
    let mut analyzer = AccountSetAnalyzer::new();
    analyzer.add_edge(1, 2);
    analyzer.add_edge(2, 3);
    assert_eq!(analyzer.find_conflicts(), Vec::<(u64, u64)>::new());
}
