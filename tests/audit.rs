use tree_status::audit::{audit_leaves, LatestLeaves, LeafAnomaly, LeafNode};

fn sig(b: u8) -> [u8; 64] {
    [b; 64]
}

fn node(index: i64) -> Option<LeafNode> {
    Some(LeafNode { leaf: [index as u8; 32], index })
}

#[test]
fn highest_sequence_per_leaf_wins() {
    let mut chain = LatestLeaves::new();
    chain.observe(sig(1), &vec![(3, node(0)), (4, node(1))]);
    chain.observe(sig(2), &vec![(9, node(0))]);
    chain.observe(sig(3), &vec![(5, node(0)), (6, None)]);
    let rows = vec![(0, 9), (1, 4)];
    assert_eq!(audit_leaves(chain, &rows), vec![]);
}

#[test]
fn equal_sequence_keeps_first_signature() {
    let mut chain = LatestLeaves::new();
    chain.observe(sig(1), &vec![(7, node(2))]);
    chain.observe(sig(2), &vec![(7, node(2))]);
    assert_eq!(
        audit_leaves(chain, &vec![]),
        vec![LeafAnomaly::MissingFromIndex { leaf_idx: 2, seq: 7, signature: sig(1) }]
    );
}

#[test]
fn reports_each_kind_of_disagreement() {
    let mut chain = LatestLeaves::new();
    chain.observe(sig(1), &vec![(10, node(0)), (11, node(1)), (12, node(2))]);
    chain.observe(sig(2), &vec![(13, node(3))]);
    let rows = vec![(1, 11), (0, 8), (5, 3), (0, 10)];
    assert_eq!(
        audit_leaves(chain, &rows),
        vec![
            LeafAnomaly::SeqMismatch { leaf_idx: 0, db_seq: 8, chain_seq: 10, signature: sig(1) },
            LeafAnomaly::NotOnChain { leaf_idx: 5 },
            LeafAnomaly::NotOnChain { leaf_idx: 0 },
            LeafAnomaly::MissingFromIndex { leaf_idx: 2, seq: 12, signature: sig(1) },
            LeafAnomaly::MissingFromIndex { leaf_idx: 3, seq: 13, signature: sig(2) },
        ]
    );
}

#[test]
fn negative_index_sequence_is_a_mismatch() {
    let mut chain = LatestLeaves::new();
    chain.observe(sig(4), &vec![(u64::MAX, node(1))]);
    assert_eq!(
        audit_leaves(chain, &vec![(1, -1)]),
        vec![LeafAnomaly::SeqMismatch { leaf_idx: 1, db_seq: -1, chain_seq: u64::MAX, signature: sig(4) }]
    );
}

#[test]
fn empty_audit() {
    assert_eq!(audit_leaves(LatestLeaves::new(), &vec![]), vec![]);
}
