use vstd::prelude::*;
use borsh::BorshDeserialize;
use std::str::FromStr;
use solana_program::pubkey::{ParsePubkeyError, Pubkey};
use spl_account_compression::{AccountCompressionEvent, ChangeLogEvent};
use crate::audit::{LeafNode, SeqUpdate};
use crate::pipeline::applied_on_chain;
use crate::leaf::{leaf_index_of, node_idx_to_leaf_idx};
use vstd::arithmetic::power2::{lemma_pow2_strictly_increases, lemma2_to64_rest};

verus! {

#[verifier::external_type_specification]
#[verifier::external_body]
pub struct ExBase58Error(bs58::decode::Error);

#[verifier::external_type_specification]
#[verifier::external_body]
pub struct ExParsePubkeyError(ParsePubkeyError);

/// The bytes that the Base58 text `s` stands for, `None` where it holds a
/// character outside the alphabet.
pub uninterp spec fn base58_decoded(s: Seq<char>) -> Option<Seq<u8>>;

/// Relies on `bs58::decode(s).into_vec()` (Bitcoin alphabet): the bytes that
/// the text stands for, or an error where a character lies outside the
/// alphabet. The result depends on the text alone; empty text gives no bytes.
#[verifier::external_body]
fn decode_base58(s: &String) -> (r: Result<Vec<u8>, bs58::decode::Error>)
    ensures
        r is Ok <==> base58_decoded(s@) is Some,
        r is Ok ==> r->Ok_0@ == base58_decoded(s@)->Some_0,
        s@.len() == 0 ==> r is Ok && r->Ok_0@.len() == 0,
{
    bs58::decode(s).into_vec()
}

/// Why a transaction could not be decoded.
#[derive(Debug, PartialEq, Eq)]
pub enum ParseError {
    /// The transaction's status metadata could not be loaded.
    TransactionMeta,
    /// The transaction itself could not be decoded.
    Transaction,
    /// An instruction's data is not valid Base58.
    Instruction(bs58::decode::Error),
    /// An account address is not a valid public key.
    Pubkey(ParsePubkeyError),
}

/// An inner instruction of a transaction.
#[derive(Debug, Clone, PartialEq, Eq)]
pub enum InnerInstruction {
    /// A compiled instruction: the position of its program among the
    /// transaction's account keys, and its data as Base58 text.
    Compiled { program_id_index: u8, data: String },
    /// An instruction in a parsed form, which names no program by position.
    Parsed,
}

/// Whether `ix` is a compiled instruction whose program is `program`.
pub open spec fn runs_program(ix: InnerInstruction, keys: Seq<[u8; 32]>, program: Seq<u8>) -> bool {
    match ix {
        InnerInstruction::Compiled { program_id_index, data } => program_id_index < keys.len()
            && keys[program_id_index as int]@ == program,
        InnerInstruction::Parsed => false,
    }
}

/// The data texts of the instructions of `ixs` that ran `program`, in order.
pub open spec fn program_data(ixs: Seq<InnerInstruction>, keys: Seq<[u8; 32]>, program: Seq<u8>) -> Seq<
    Seq<char>,
>
    decreases ixs.len(),
{
    if ixs.len() == 0 {
        seq![]
    } else {
        let prev = program_data(ixs.drop_last(), keys, program);
        let ix = ixs.last();
        if runs_program(ix, keys, program) {
            prev.push(ix->Compiled_data@)
        } else {
            prev
        }
    }
}

/// Whether two keys are equal.
fn same_key(a: &[u8; 32], b: &[u8; 32]) -> (r: bool)
    ensures
        r == (a@ == b@),
{
    let mut i: usize = 0;
    while i < 32
        invariant
            0 <= i <= 32,
            a@.len() == 32,
            b@.len() == 32,
            forall|j: int| 0 <= j < i ==> a@[j] == b@[j],
        decreases 32 - i,
    {
        if a[i] != b[i] {
            return false;
        }
        i = i + 1;
    }
    assert(a@ =~= b@);
    true
}

/// The payloads of the inner instructions, flattened in order, that ran
/// `log_program`, with `account_keys` the transaction's full key list
/// (static keys, then loaded writable, then loaded read-only addresses).
/// Fails on the first payload that is not valid Base58.
pub fn log_payloads(
    instructions: &Vec<InnerInstruction>,
    account_keys: &Vec<[u8; 32]>,
    log_program: &[u8; 32],
) -> (r: Result<Vec<Vec<u8>>, ParseError>)
    ensures
        r is Ok <==> forall|i: int|
            0 <= i < program_data(instructions@, account_keys@, log_program@).len()
                ==> #[trigger] base58_decoded(
                program_data(instructions@, account_keys@, log_program@)[i],
            ) is Some,
        r is Err ==> r->Err_0 is Instruction,
        r is Ok ==> r->Ok_0.len() == program_data(instructions@, account_keys@, log_program@).len()
            && forall|i: int|
            0 <= i < r->Ok_0.len() ==> (#[trigger] r->Ok_0[i])@ == base58_decoded(
                program_data(instructions@, account_keys@, log_program@)[i],
            )->Some_0,
{
    let ghost keys = account_keys@;
    let ghost prog = log_program@;
    let mut out: Vec<Vec<u8>> = Vec::new();
    let mut i: usize = 0;
    while i < instructions.len()
        invariant
            0 <= i <= instructions.len(),
            keys == account_keys@,
            prog == log_program@,
            out.len() == program_data(instructions@.take(i as int), keys, prog).len(),
            forall|j: int|
                0 <= j < out.len() ==> #[trigger] base58_decoded(
                    program_data(instructions@.take(i as int), keys, prog)[j],
                ) is Some && out[j]@ == base58_decoded(
                    program_data(instructions@.take(i as int), keys, prog)[j],
                )->Some_0,
        decreases instructions.len() - i,
    {
        let ghost before = program_data(instructions@.take(i as int), keys, prog);
        assert(instructions@.take(i + 1).drop_last() =~= instructions@.take(i as int));
        assert(instructions@.take(i + 1).last() == instructions@[i as int]);
        match &instructions[i] {
            InnerInstruction::Compiled { program_id_index, data } => {
                let idx = *program_id_index as usize;
                if idx < account_keys.len() && same_key(&account_keys[idx], log_program) {
                    let ghost after = program_data(instructions@.take(i + 1), keys, prog);
                    assert(after == before.push(data@));
                    match decode_base58(data) {
                        Ok(bytes) => {
                            out.push(bytes);
                        },
                        Err(e) => {
                            proof {
                                let n = before.len() as int;
                                lemma_program_data_prefix(instructions@, keys, prog, i + 1);
                                assert(after[n] == data@);
                                assert(program_data(instructions@, keys, prog)[n] == after[n]);
                            }
                            return Err(ParseError::Instruction(e));
                        },
                    }
                }
            },
            InnerInstruction::Parsed => {},
        }
        i = i + 1;
    }
    assert(instructions@.take(instructions.len() as int) =~= instructions@);
    Ok(out)
}

/// The data texts picked from a prefix of the instructions are a prefix of
/// those picked from all of them.
proof fn lemma_program_data_prefix(
    ixs: Seq<InnerInstruction>,
    keys: Seq<[u8; 32]>,
    program: Seq<u8>,
    n: int,
)
    requires
        0 <= n <= ixs.len(),
    ensures
        program_data(ixs.take(n), keys, program).len() <= program_data(ixs, keys, program).len(),
        forall|j: int|
            0 <= j < program_data(ixs.take(n), keys, program).len() ==> #[trigger] program_data(
                ixs.take(n),
                keys,
                program,
            )[j] == program_data(ixs, keys, program)[j],
    decreases ixs.len() - n,
{
    if n < ixs.len() {
        lemma_program_data_prefix(ixs, keys, program, n + 1);
        assert(ixs.take(n + 1).drop_last() =~= ixs.take(n));
        let a = program_data(ixs.take(n), keys, program);
        let b = program_data(ixs.take(n + 1), keys, program);
        assert forall|j: int| 0 <= j < a.len() implies #[trigger] a[j] == program_data(
            ixs,
            keys,
            program,
        )[j] by {
            assert(a[j] == b[j]);
        }
    } else {
        assert(ixs.take(n) =~= ixs);
    }
}

/// One node of a change-log path: the node's hash and its node index.
#[derive(Debug, Clone, Copy, PartialEq, Eq)]
pub struct PathNode {
    pub node: [u8; 32],
    pub index: u32,
}

/// A change-log event: the tree changed, the path from the changed leaf up
/// to the root, and the change's sequence number.
#[derive(Debug, Clone, PartialEq, Eq)]
pub struct ChangeLogRecord {
    pub id: [u8; 32],
    pub path: Vec<PathNode>,
    pub seq: u64,
}

/// The leaf that a change-log path names: its first node, whose node index
/// addresses a tree of height one less than the path's length. A path of
/// more than 63 nodes addresses no leaf that an `i64` can number.
pub open spec fn leaf_of(path: Seq<PathNode>) -> Option<LeafNode> {
    if path.len() == 0 || path.len() > 63 {
        None
    } else {
        Some(
            LeafNode {
                leaf: path[0].node,
                index: leaf_index_of(path[0].index as int, (path.len() - 1) as nat) as i64,
            },
        )
    }
}

/// The changes that `events` record for `tree`, in order; `None` stands for
/// a payload that is no change-log event.
pub open spec fn tree_updates(events: Seq<Option<ChangeLogRecord>>, tree: [u8; 32]) -> Seq<SeqUpdate>
    decreases events.len(),
{
    if events.len() == 0 {
        seq![]
    } else {
        let prev = tree_updates(events.drop_last(), tree);
        match events.last() {
            Some(ev) => if ev.id@ == tree@ {
                prev.push((ev.seq, leaf_of(ev.path@)))
            } else {
                prev
            },
            None => prev,
        }
    }
}

/// The leaf that `path` names.
fn path_leaf(path: &Vec<PathNode>) -> (r: Option<LeafNode>)
    ensures
        r == leaf_of(path@),
{
    if path.len() == 0 || path.len() > 63 {
        return None;
    }
    let height = (path.len() - 1) as u32;
    let first = path[0];
    proof {
        lemma2_to64_rest();
        if height < 62 {
            lemma_pow2_strictly_increases(height as nat, 62);
        }
    }
    let index = node_idx_to_leaf_idx(first.index as i64, height);
    Some(LeafNode { leaf: first.node, index })
}

/// Picks out of a transaction's decoded change-log events the changes to
/// `tree`, each with the leaf its path names.
pub fn collect_tree_updates(events: &Vec<Option<ChangeLogRecord>>, tree: &[u8; 32]) -> (r: Vec<
    SeqUpdate,
>)
    ensures
        r@ == tree_updates(events@, *tree),
{
    let mut out: Vec<SeqUpdate> = Vec::new();
    let mut i: usize = 0;
    while i < events.len()
        invariant
            0 <= i <= events.len(),
            out@ == tree_updates(events@.take(i as int), *tree),
        decreases events.len() - i,
    {
        assert(events@.take(i + 1).drop_last() =~= events@.take(i as int));
        assert(events@.take(i + 1).last() == events@[i as int]);
        match &events[i] {
            Some(ev) => {
                if same_key(&ev.id, tree) {
                    let leaf = path_leaf(&ev.path);
                    out.push((ev.seq, leaf));
                }
            },
            None => {},
        }
        i = i + 1;
    }
    assert(events@.take(events.len() as int) =~= events@);
    out
}

/// The bytes of the log program's address,
/// `noopb9bkMVfRPU8AsbpTUg8AQkHtKwMYZiFUjNRtMmV`.
pub open spec fn log_program_bytes() -> Seq<u8> {
    seq![
        11u8, 188, 15, 192, 187, 71, 202, 47, 116, 196, 17, 46, 148, 171, 19, 207, 163, 198, 52,
        229, 220, 23, 234, 203, 3, 205, 26, 35, 205, 126, 120, 124,
    ]
}

/// Relies on `spl_noop::id()`: the address that the log program is declared
/// with.
#[verifier::external_body]
fn log_program_id() -> (r: [u8; 32])
    ensures
        r@ == log_program_bytes(),
{
    spl_noop::id().to_bytes()
}

/// The change-log event that a log instruction's payload holds, `None` where
/// it holds another event or none.
pub uninterp spec fn change_log_of(data: Seq<u8>) -> Option<ChangeLogRecord>;

/// Relies on `AccountCompressionEvent::try_from_slice` (borsh): the event that
/// the payload holds, taken where it is a change-log event.
#[verifier::external_body]
fn decode_change_log(data: &Vec<u8>) -> (r: Option<ChangeLogRecord>)
    ensures
        r == change_log_of(data@),
{
    match AccountCompressionEvent::try_from_slice(data) {
        Ok(AccountCompressionEvent::ChangeLog(ChangeLogEvent::V1(cl))) => Some(ChangeLogRecord {
            id: cl.id.to_bytes(),
            path: cl.path.iter().map(|n| PathNode { node: n.node, index: n.index }).collect(),
            seq: cl.seq,
        }),
        _ => None,
    }
}

/// The public key that the Base58 text `s` stands for, `None` where it
/// stands for none.
pub uninterp spec fn pubkey_of(s: Seq<char>) -> Option<[u8; 32]>;

/// Relies on `Pubkey::from_str`: the key that the text stands for, that is
/// the Base58 decoding (by the same `bs58` version) of a text of at most 44
/// characters, where it is 32 bytes long.
#[verifier::external_body]
fn parse_pubkey(s: &String) -> (r: Result<[u8; 32], ParsePubkeyError>)
    ensures
        r is Ok <==> pubkey_of(s@) is Some,
        r is Ok ==> r->Ok_0 == pubkey_of(s@)->Some_0,
        r is Ok <==> (s@.len() <= 44 && base58_decoded(s@) is Some
            && base58_decoded(s@)->Some_0.len() == 32),
        r is Ok ==> r->Ok_0@ == base58_decoded(s@)->Some_0,
{
    Pubkey::from_str(s).map(|k| k.to_bytes())
}

/// Whether every text of `texts` stands for a public key.
pub open spec fn all_pubkeys(texts: Seq<String>) -> bool {
    forall|i: int| 0 <= i < texts.len() ==> (#[trigger] pubkey_of(texts[i]@)) is Some
}

/// The public keys that the texts stand for.
pub open spec fn pubkeys(texts: Seq<String>) -> Seq<[u8; 32]> {
    texts.map_values(|s: String| pubkey_of(s@)->Some_0)
}

/// A copy of `keys`.
fn copy_keys(keys: &Vec<[u8; 32]>) -> (r: Vec<[u8; 32]>)
    ensures
        r@ == keys@,
{
    let mut out: Vec<[u8; 32]> = Vec::new();
    let mut i: usize = 0;
    while i < keys.len()
        invariant
            0 <= i <= keys.len(),
            out@ == keys@.take(i as int),
        decreases keys.len() - i,
    {
        out.push(keys[i]);
        assert(keys@.take(i + 1) =~= keys@.take(i as int).push(keys@[i as int]));
        i = i + 1;
    }
    assert(keys@.take(keys.len() as int) =~= keys@);
    out
}

/// Appends to `keys` the public keys of `texts`; fails on the first text
/// that stands for none.
fn push_pubkeys(keys: &mut Vec<[u8; 32]>, texts: &Vec<String>) -> (r: Result<(), ParsePubkeyError>)
    ensures
        r is Ok == all_pubkeys(texts@),
        r is Ok ==> final(keys)@ == old(keys)@ + pubkeys(texts@),
{
    let mut i: usize = 0;
    let ghost start = keys@;
    while i < texts.len()
        invariant
            0 <= i <= texts.len(),
            forall|j: int| 0 <= j < i ==> (#[trigger] pubkey_of(texts@[j]@)) is Some,
            keys@ == start + pubkeys(texts@.take(i as int)),
        decreases texts.len() - i,
    {
        match parse_pubkey(&texts[i]) {
            Ok(k) => {
                keys.push(k);
                assert(pubkeys(texts@.take(i + 1)) =~= pubkeys(texts@.take(i as int)).push(k));
            },
            Err(e) => {
                return Err(e);
            },
        }
        i = i + 1;
    }
    assert(texts@.take(texts.len() as int) =~= texts@);
    Ok(())
}

/// What the decode step reads of a fetched transaction.
#[derive(Debug, Clone, PartialEq, Eq)]
pub struct TxView {
    /// `None` where the transaction carries no status metadata, else whether
    /// it succeeded.
    pub status: Option<bool>,
    /// The inner instructions, flattened in order; `None` where the metadata
    /// lists none.
    pub inner_instructions: Option<Vec<InnerInstruction>>,
    /// The message's static account keys; `None` where the transaction could
    /// not be decoded.
    pub static_keys: Option<Vec<[u8; 32]>>,
    /// Loaded writable addresses, as Base58 text.
    pub loaded_writable: Vec<String>,
    /// Loaded read-only addresses, as Base58 text.
    pub loaded_readonly: Vec<String>,
}

/// The full account-key list: static keys, then loaded writable, then loaded
/// read-only addresses.
pub open spec fn account_keys(tx: TxView) -> Seq<[u8; 32]> {
    tx.static_keys->Some_0@ + pubkeys(tx.loaded_writable@) + pubkeys(tx.loaded_readonly@)
}

/// The payloads of the log-program instructions of `tx`, as Base58 text.
pub open spec fn log_texts(tx: TxView) -> Seq<Seq<char>> {
    program_data(tx.inner_instructions->Some_0@, account_keys(tx), log_program_bytes())
}

/// The change-log events that the log texts of `tx` hold.
pub open spec fn log_events(tx: TxView) -> Seq<Option<ChangeLogRecord>> {
    log_texts(tx).map_values(|t: Seq<char>| change_log_of(base58_decoded(t)->Some_0))
}

/// Decodes the changes that transaction `tx` applied to `tree`: the
/// change-log events that its inner instructions of the log program carry.
/// A transaction that failed or carries no metadata yields none.
pub fn parse_tx_sequence(tx: &TxView, tree: &[u8; 32]) -> (r: Result<Vec<SeqUpdate>, ParseError>)
    ensures
        tx.status != Some(true) || tx.inner_instructions is None ==> r is Ok && r->Ok_0@.len() == 0,
        tx.status == Some(true) && tx.inner_instructions is Some && tx.static_keys is None ==> r
            == Err::<Vec<SeqUpdate>, ParseError>(ParseError::Transaction),
        tx.status == Some(true) && tx.inner_instructions is Some && tx.static_keys is Some && !(
        all_pubkeys(tx.loaded_writable@) && all_pubkeys(tx.loaded_readonly@)) ==> r is Err
            && r->Err_0 is Pubkey,
        tx.status == Some(true) && tx.inner_instructions is Some && tx.static_keys is Some
            && all_pubkeys(tx.loaded_writable@) && all_pubkeys(tx.loaded_readonly@) ==> {
            &&& r is Ok <==> forall|i: int|
                0 <= i < log_texts(*tx).len() ==> #[trigger] base58_decoded(log_texts(*tx)[i]) is Some
            &&& r is Err ==> r->Err_0 is Instruction
            &&& r is Ok ==> r->Ok_0@ == tree_updates(log_events(*tx), *tree)
        },
{
    if !applied_on_chain(tx.status) {
        return Ok(Vec::new());
    }
    let ixs = match &tx.inner_instructions {
        None => {
            return Ok(Vec::new());
        },
        Some(ixs) => ixs,
    };
    let mut keys = match &tx.static_keys {
        None => {
            return Err(ParseError::Transaction);
        },
        Some(k) => copy_keys(k),
    };
    if let Err(e) = push_pubkeys(&mut keys, &tx.loaded_writable) {
        return Err(ParseError::Pubkey(e));
    }
    if let Err(e) = push_pubkeys(&mut keys, &tx.loaded_readonly) {
        return Err(ParseError::Pubkey(e));
    }
    assert(keys@ == account_keys(*tx));
    let log_program = log_program_id();
    let payloads = match log_payloads(ixs, &keys, &log_program) {
        Ok(p) => p,
        Err(e) => {
            return Err(e);
        },
    };
    assert(program_data(ixs@, keys@, log_program@) == log_texts(*tx));
    let mut events: Vec<Option<ChangeLogRecord>> = Vec::new();
    let mut i: usize = 0;
    while i < payloads.len()
        invariant
            0 <= i <= payloads.len(),
            payloads.len() == log_texts(*tx).len(),
            events.len() == i,
            forall|j: int| 0 <= j < i ==> #[trigger] events@[j] == log_events(*tx)[j],
            forall|j: int|
                0 <= j < payloads.len() ==> (#[trigger] payloads@[j])@ == base58_decoded(
                    log_texts(*tx)[j],
                )->Some_0,
        decreases payloads.len() - i,
    {
        events.push(decode_change_log(&payloads[i]));
        i = i + 1;
    }
    assert(events@ =~= log_events(*tx));
    Ok(collect_tree_updates(&events, tree))
}

} // verus!
