use tree_status::pipeline::{
    applied_on_chain, fetch_step, gap_window, next_window, pipeline_concurrency, FetchAction,
    FetchEvent, SignatureWindow, TXN_FETCH_ATTEMPTS,
};

#[test]
fn default_worker_counts() {
    assert_eq!(pipeline_concurrency(None, None), (20, 3));
    assert_eq!(pipeline_concurrency(Some(7), None), (7, 3));
    assert_eq!(pipeline_concurrency(None, Some(1)), (20, 1));
}

#[test]
fn paging_moves_before_to_oldest_signature() {
    let w = gap_window(Some([9; 64]), Some([1; 64]));
    assert_eq!(w, SignatureWindow { before: Some([9; 64]), until: Some([1; 64]) });
    let page = vec![[8u8; 64], [7u8; 64], [6u8; 64]];
    let w2 = next_window(w, &page).unwrap();
    assert_eq!(w2, SignatureWindow { before: Some([6; 64]), until: Some([1; 64]) });
    assert_eq!(next_window(w2, &vec![]), None);
}

#[test]
fn only_applied_transactions_are_forwarded() {
    assert!(applied_on_chain(Some(true)));
    assert!(!applied_on_chain(Some(false)));
    assert!(!applied_on_chain(None));
}

#[test]
fn fetch_retries_are_bounded() {
    assert_eq!(fetch_step(1, TXN_FETCH_ATTEMPTS, FetchEvent::Failed), FetchAction::Retry);
    assert_eq!(fetch_step(5, TXN_FETCH_ATTEMPTS, FetchEvent::Failed), FetchAction::GiveUp);
    assert_eq!(fetch_step(2, 5, FetchEvent::Fetched { applied: true }), FetchAction::Forward);
    assert_eq!(fetch_step(5, 5, FetchEvent::Fetched { applied: false }), FetchAction::Drop);
}
