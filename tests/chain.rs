use tree_status::chain::{read_tree_seq, ChainStateError};

fn account(header_len: usize, seq: u64, body_len: usize) -> Vec<u8> {
    let mut data = vec![0xAAu8; header_len];
    data.extend_from_slice(&seq.to_le_bytes());
    data.extend(std::iter::repeat(0x55u8).take(body_len - 8));
    data
}

#[test]
fn reads_sequence_after_header() {
    let data = account(56, 0x0102_0304_0506_0708, 64);
    assert_eq!(read_tree_seq(&data, 56, 64), Ok(0x0102_0304_0506_0708));
}

#[test]
fn reads_sequence_one_hundred() {
    let mut data = account(10, 100, 40);
    data.extend(vec![9u8; 16]);
    assert_eq!(read_tree_seq(&data, 10, 40), Ok(100));
}

#[test]
fn short_account_is_rejected() {
    let data = account(56, 7, 64);
    assert_eq!(read_tree_seq(&data, 56, 65), Err(ChainStateError::AccountTooShort));
    assert_eq!(read_tree_seq(&data[..30].to_vec(), 56, 64), Err(ChainStateError::AccountTooShort));
}

#[test]
fn body_too_small_for_sequence() {
    let data = vec![0u8; 100];
    assert_eq!(read_tree_seq(&data, 10, 7), Err(ChainStateError::AccountTooShort));
}

use borsh::BorshDeserialize;
use spl_account_compression::state::{merkle_tree_get_size, ConcurrentMerkleTreeHeader};
use tree_status::chain::get_onchain_tree_seq;

fn header_bytes(max_depth: u32, max_buffer_size: u32) -> Vec<u8> {
    let mut h = vec![1u8, 0u8];
    h.extend_from_slice(&max_buffer_size.to_le_bytes());
    h.extend_from_slice(&max_depth.to_le_bytes());
    h.extend_from_slice(&[5u8; 32]);
    h.extend_from_slice(&77u64.to_le_bytes());
    h.extend_from_slice(&[0u8; 6]);
    h
}

fn tree_account(seq: u64) -> (Vec<u8>, usize) {
    let header = header_bytes(3, 8);
    let parsed = ConcurrentMerkleTreeHeader::try_from_slice(&header).unwrap();
    let size = merkle_tree_get_size(&parsed).unwrap();
    let mut data = header;
    data.extend_from_slice(&seq.to_le_bytes());
    data.extend(vec![0u8; size - 8]);
    data.extend(vec![0xEEu8; 96]);
    (data, size)
}

#[test]
fn onchain_seq_from_tree_account() {
    let (data, _) = tree_account(100);
    assert_eq!(get_onchain_tree_seq(Some(data)), Ok(100));
}

#[test]
fn onchain_seq_missing_account() {
    assert_eq!(get_onchain_tree_seq(None), Err(ChainStateError::AccountNotFound));
}

#[test]
fn onchain_seq_account_shorter_than_header() {
    assert_eq!(get_onchain_tree_seq(Some(vec![1u8; 20])), Err(ChainStateError::AccountTooShort));
}

#[test]
fn onchain_seq_account_shorter_than_body() {
    let (mut data, size) = tree_account(5);
    data.truncate(56 + size - 1);
    assert_eq!(get_onchain_tree_seq(Some(data)), Err(ChainStateError::AccountTooShort));
}

#[test]
fn onchain_seq_bad_header() {
    let mut data = header_bytes(3, 8);
    data[0] = 9;
    data.extend(vec![0u8; 4096]);
    assert_eq!(get_onchain_tree_seq(Some(data)), Err(ChainStateError::HeaderDecode));
}

#[test]
fn onchain_seq_unsupported_tree_shape() {
    let mut data = header_bytes(4, 8);
    data.extend(vec![0u8; 4096]);
    assert_eq!(get_onchain_tree_seq(Some(data)), Err(ChainStateError::HeaderDecode));
}
