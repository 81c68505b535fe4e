use tree_status::status::{check_tree_seq, has_gaps, tip_status, SeqSummary, TipStatus, TreeCheck, TreeCheckError};

#[test]
fn fully_indexed_tree_is_up_to_date() {
    let s = SeqSummary { max_seq: 100, cnt_seq: 100 };
    let r = check_tree_seq(100, Some(s));
    assert_eq!(
        r,
        Ok(TreeCheck { onchain_seq: 100, summary: s, tip: TipStatus::UpToDate, has_gaps: false })
    );
}

#[test]
fn missing_sequence_shows_as_gap() {
    // Sequences 1..=80 and 82..=100 indexed: 99 distinct, largest 100.
    let s = SeqSummary { max_seq: 100, cnt_seq: 99 };
    assert!(has_gaps(&s));
    let r = check_tree_seq(100, Some(s)).unwrap();
    assert_eq!(r.tip, TipStatus::UpToDate);
    assert!(r.has_gaps);
}

#[test]
fn duplicate_rows_cannot_hide_a_gap() {
    // Rows 1, 2, 2, 4: a row count of 4 would match the largest sequence,
    // the distinct count of 3 does not.
    let rows = vec![1i64, 2, 2, 4];
    let mut distinct = rows.clone();
    distinct.dedup();
    let naive = SeqSummary { max_seq: 4, cnt_seq: rows.len() as i64 };
    let summary = SeqSummary { max_seq: 4, cnt_seq: distinct.len() as i64 };
    assert!(!has_gaps(&naive));
    assert!(has_gaps(&summary));
}

#[test]
fn tip_comparison() {
    assert_eq!(tip_status(5, 9), TipStatus::Behind);
    assert_eq!(tip_status(9, 9), TipStatus::UpToDate);
    assert_eq!(tip_status(10, 9), TipStatus::Ahead);
}

#[test]
fn tree_missing_from_index() {
    assert_eq!(check_tree_seq(7, None), Err(TreeCheckError::NotIndexed));
}

#[test]
fn chain_sequence_beyond_index_range() {
    let big = i64::MAX as u64 + 1;
    let s = SeqSummary { max_seq: 1, cnt_seq: 1 };
    assert_eq!(check_tree_seq(big, Some(s)), Err(TreeCheckError::SeqOutOfRange(big)));
}

#[test]
fn index_ahead_of_chain() {
    let s = SeqSummary { max_seq: 12, cnt_seq: 12 };
    let r = check_tree_seq(10, Some(s)).unwrap();
    assert_eq!(r.tip, TipStatus::Ahead);
    assert!(!r.has_gaps);
}

use tree_status::status::needs_repair;

#[test]
fn index_behind_chain_needs_repair() {
    // Sequences 1..=80 indexed, the chain is at 100: no gap below 80, yet behind.
    let s = SeqSummary { max_seq: 80, cnt_seq: 80 };
    let check = check_tree_seq(100, Some(s)).unwrap();
    assert!(!check.has_gaps);
    assert_eq!(check.tip, TipStatus::Behind);
    assert!(needs_repair(&check));
}

#[test]
fn complete_index_needs_no_repair() {
    let check = check_tree_seq(100, Some(SeqSummary { max_seq: 100, cnt_seq: 100 })).unwrap();
    assert!(!needs_repair(&check));
    let gaps = check_tree_seq(100, Some(SeqSummary { max_seq: 100, cnt_seq: 99 })).unwrap();
    assert!(needs_repair(&gaps));
}
