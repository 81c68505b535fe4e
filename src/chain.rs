use vstd::prelude::*;
use borsh::BorshDeserialize;
use spl_account_compression::state::{
    merkle_tree_get_size, ConcurrentMerkleTreeHeader, CONCURRENT_MERKLE_TREE_HEADER_SIZE_V1,
};

verus! {

/// The byte size of the tree body that an account header describes: `None`
/// where the bytes hold no header of a known account type and version, or
/// where the header names a depth and buffer size that are not supported.
pub uninterp spec fn tree_size_of(header: Seq<u8>) -> Option<usize>;

/// Relies on `CONCURRENT_MERKLE_TREE_HEADER_SIZE_V1`: a tree account's header
/// takes 2 + 54 bytes.
#[verifier::external_body]
fn tree_header_len() -> (r: usize)
    ensures
        r == 56,
{
    CONCURRENT_MERKLE_TREE_HEADER_SIZE_V1
}

/// Relies on `merkle_tree_get_size`, applied to the header that
/// `ConcurrentMerkleTreeHeader::try_from_slice` (borsh) reads from `header`:
/// the byte size of the tree body that the header describes.
#[verifier::external_body]
fn tree_body_size(header: &[u8]) -> (r: Option<usize>)
    ensures
        r == tree_size_of(header@),
{
    ConcurrentMerkleTreeHeader::try_from_slice(header).ok().and_then(|h| merkle_tree_get_size(&h).ok())
}

/// Why a tree's on-chain state could not be read.
#[derive(Debug, Clone, Copy, PartialEq, Eq, Structural)]
pub enum ChainStateError {
    /// No account lives at the tree's address.
    AccountNotFound,
    /// The account is shorter than its header and tree body.
    AccountTooShort,
    /// The header is malformed or of an unsupported version.
    HeaderDecode,
}

/// The unsigned integer whose little-endian bytes are `b`.
pub open spec fn le_value(b: Seq<u8>) -> nat
    decreases b.len(),
{
    if b.len() == 0 {
        0
    } else {
        (b[0] + 256 * le_value(b.drop_first())) as nat
    }
}

/// Reads eight bytes from `at` on as a little-endian `u64`.
fn read_u64_le(data: &Vec<u8>, at: usize) -> (r: u64)
    requires
        at + 8 <= data.len(),
    ensures
        r == le_value(data@.subrange(at as int, at + 8)),
{
    let ghost b = data@.subrange(at as int, at + 8);
    proof {
        reveal_with_fuel(le_value, 9);
        assert(b.drop_first() =~= data@.subrange(at + 1, at + 8));
        assert(b.drop_first().drop_first() =~= data@.subrange(at + 2, at + 8));
        assert(b.drop_first().drop_first().drop_first() =~= data@.subrange(at + 3, at + 8));
        assert(b.drop_first().drop_first().drop_first().drop_first() =~= data@.subrange(
            at + 4,
            at + 8,
        ));
        assert(b.drop_first().drop_first().drop_first().drop_first().drop_first()
            =~= data@.subrange(at + 5, at + 8));
        assert(b.drop_first().drop_first().drop_first().drop_first().drop_first().drop_first()
            =~= data@.subrange(at + 6, at + 8));
        assert(b.drop_first().drop_first().drop_first().drop_first().drop_first().drop_first().drop_first()
            =~= data@.subrange(at + 7, at + 8));
        assert(b.drop_first().drop_first().drop_first().drop_first().drop_first().drop_first().drop_first().drop_first()
            =~= seq![]);
    }
    let b0 = data[at] as u64;
    let b1 = data[at + 1] as u64;
    let b2 = data[at + 2] as u64;
    let b3 = data[at + 3] as u64;
    let b4 = data[at + 4] as u64;
    let b5 = data[at + 5] as u64;
    let b6 = data[at + 6] as u64;
    let b7 = data[at + 7] as u64;
    b0 + 256 * (b1 + 256 * (b2 + 256 * (b3 + 256 * (b4 + 256 * (b5 + 256 * (b6 + 256 * b7))))))
}

/// Reads a tree's live sequence number out of its account bytes. The account
/// holds a header of `header_len` bytes, then the tree body of `tree_size`
/// bytes, which opens with the sequence number as a little-endian `u64`.
pub fn read_tree_seq(data: &Vec<u8>, header_len: usize, tree_size: usize) -> (r: Result<
    u64,
    ChainStateError,
>)
    ensures
        r is Ok <==> 8 <= tree_size && header_len + tree_size <= data.len(),
        r is Err ==> r == Err::<u64, ChainStateError>(ChainStateError::AccountTooShort),
        r is Ok ==> r->Ok_0 == le_value(data@.subrange(header_len as int, header_len + 8)),
{
    if header_len > data.len() || tree_size > data.len() - header_len || tree_size < 8 {
        return Err(ChainStateError::AccountTooShort);
    }
    Ok(read_u64_le(data, header_len))
}

/// Reads a tree's live sequence number out of its account (`None` where no
/// account lives at the tree's address): the header is decoded, the size of
/// the tree body that follows it taken from the header, and the body's first
/// eight bytes read as a little-endian `u64`.
pub fn get_onchain_tree_seq(account: Option<Vec<u8>>) -> (r: Result<u64, ChainStateError>)
    ensures
        account is None ==> r == Err::<u64, ChainStateError>(ChainStateError::AccountNotFound),
        account is Some && account->Some_0@.len() < 56 ==> r == Err::<u64, ChainStateError>(
            ChainStateError::AccountTooShort,
        ),
        account is Some && account->Some_0@.len() >= 56 && tree_size_of(
            account->Some_0@.subrange(0, 56),
        ) is None ==> r == Err::<u64, ChainStateError>(ChainStateError::HeaderDecode),
        account is Some && account->Some_0@.len() >= 56 && tree_size_of(
            account->Some_0@.subrange(0, 56),
        ) is Some ==> {
            let size = tree_size_of(account->Some_0@.subrange(0, 56))->Some_0;
            if 8 <= size && 56 + size <= account->Some_0@.len() {
                r == Ok::<u64, ChainStateError>(
                    le_value(account->Some_0@.subrange(56, 64)) as u64,
                ) && le_value(account->Some_0@.subrange(56, 64)) <= u64::MAX
            } else {
                r == Err::<u64, ChainStateError>(ChainStateError::AccountTooShort)
            }
        },
{
    let data = match account {
        None => {
            return Err(ChainStateError::AccountNotFound);
        },
        Some(data) => data,
    };
    let header_len = tree_header_len();
    if data.len() < header_len {
        return Err(ChainStateError::AccountTooShort);
    }
    let tree_size = match tree_body_size(vstd::slice::slice_subrange(data.as_slice(), 0, header_len)) {
        Some(n) => n,
        None => {
            return Err(ChainStateError::HeaderDecode);
        },
    };
    read_tree_seq(&data, header_len, tree_size)
}

} // verus!
