use borsh::BorshSerialize;
use solana_program::pubkey::{ParsePubkeyError, Pubkey};
use spl_account_compression::state::PathNode as SplPathNode;
use spl_account_compression::{AccountCompressionEvent, ChangeLogEvent};
use tree_status::audit::LeafNode;
use tree_status::decode::{parse_tx_sequence, InnerInstruction, ParseError, TxView};

const TREE: [u8; 32] = [4; 32];

fn change_log_payload(tree: [u8; 32], seq: u64, leaf_index: u32, depth: u32) -> String {
    let path: Vec<SplPathNode> = (0..=depth)
        .map(|lvl| SplPathNode { node: [lvl as u8; 32], index: ((1u32 << depth) + leaf_index) >> lvl })
        .collect();
    let event = AccountCompressionEvent::ChangeLog(ChangeLogEvent::new(
        Pubkey::new_from_array(tree),
        path,
        seq,
        leaf_index,
    ));
    bs58::encode(event.try_to_vec().unwrap()).into_string()
}

fn log_key() -> [u8; 32] {
    spl_noop::id().to_bytes()
}

fn tx(inner: Vec<InnerInstruction>, keys: Vec<[u8; 32]>, writable: Vec<String>) -> TxView {
    TxView {
        status: Some(true),
        inner_instructions: Some(inner),
        static_keys: Some(keys),
        loaded_writable: writable,
        loaded_readonly: vec![],
    }
}

#[test]
fn decodes_change_log_events_for_the_tree() {
    let other_tree = [6u8; 32];
    let inner = vec![
        InnerInstruction::Compiled { program_id_index: 1, data: change_log_payload(TREE, 81, 5, 3) },
        InnerInstruction::Compiled { program_id_index: 1, data: change_log_payload(other_tree, 9, 0, 3) },
        InnerInstruction::Compiled { program_id_index: 0, data: change_log_payload(TREE, 99, 1, 3) },
        InnerInstruction::Compiled { program_id_index: 1, data: change_log_payload(TREE, 82, 6, 3) },
    ];
    let r = parse_tx_sequence(&tx(inner, vec![[0; 32], log_key()], vec![]), &TREE).unwrap();
    assert_eq!(
        r,
        vec![
            (81, Some(LeafNode { leaf: [0; 32], index: 5 })),
            (82, Some(LeafNode { leaf: [0; 32], index: 6 })),
        ]
    );
}

#[test]
fn log_program_found_among_loaded_addresses() {
    let inner = vec![InnerInstruction::Compiled { program_id_index: 1, data: change_log_payload(TREE, 7, 2, 2) }];
    let writable = vec![bs58::encode(log_key()).into_string()];
    let r = parse_tx_sequence(&tx(inner, vec![[0; 32]], writable), &TREE).unwrap();
    assert_eq!(r, vec![(7, Some(LeafNode { leaf: [0; 32], index: 2 }))]);
}

#[test]
fn payload_that_is_no_event_is_skipped() {
    let inner = vec![InnerInstruction::Compiled { program_id_index: 0, data: bs58::encode([1u8, 2, 3]).into_string() }];
    let r = parse_tx_sequence(&tx(inner, vec![log_key()], vec![]), &TREE).unwrap();
    assert_eq!(r, vec![]);
}

#[test]
fn failed_transaction_yields_nothing() {
    let inner = vec![InnerInstruction::Compiled { program_id_index: 0, data: change_log_payload(TREE, 1, 0, 3) }];
    let mut t = tx(inner, vec![log_key()], vec![]);
    t.status = Some(false);
    assert_eq!(parse_tx_sequence(&t, &TREE), Ok(vec![]));
    t.status = None;
    assert_eq!(parse_tx_sequence(&t, &TREE), Ok(vec![]));
}

#[test]
fn undecodable_transaction_is_an_error() {
    let mut t = tx(vec![], vec![], vec![]);
    t.static_keys = None;
    assert_eq!(parse_tx_sequence(&t, &TREE), Err(ParseError::Transaction));
    t.inner_instructions = None;
    assert_eq!(parse_tx_sequence(&t, &TREE), Ok(vec![]));
}

#[test]
fn bad_loaded_address_is_an_error() {
    let t = tx(vec![], vec![log_key()], vec!["not-a-key".to_string()]);
    assert_eq!(parse_tx_sequence(&t, &TREE), Err(ParseError::Pubkey(ParsePubkeyError::Invalid)));
    let short = tx(vec![], vec![log_key()], vec![bs58::encode([1u8; 31]).into_string()]);
    assert_eq!(parse_tx_sequence(&short, &TREE), Err(ParseError::Pubkey(ParsePubkeyError::WrongSize)));
}

#[test]
fn bad_instruction_data_is_an_error() {
    let inner = vec![InnerInstruction::Compiled { program_id_index: 0, data: "0OIl".to_string() }];
    match parse_tx_sequence(&tx(inner, vec![log_key()], vec![]), &TREE) {
        Err(ParseError::Instruction(_)) => {}
        other => panic!("unexpected {other:?}"),
    }
}

#[test]
fn log_program_address() {
    assert_eq!(
        bs58::encode(log_key()).into_string(),
        "noopb9bkMVfRPU8AsbpTUg8AQkHtKwMYZiFUjNRtMmV"
    );
}
