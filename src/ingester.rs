use vstd::prelude::*;
use rand::Rng;

verus! {

/// Which services an ingester process runs.
#[derive(Debug, Clone, Copy, PartialEq, Eq, Structural)]
pub enum IngesterRole {
    /// Every service.
    All,
    /// The backfiller alone.
    Backfiller,
    /// The background task runner alone.
    BackgroundTaskRunner,
    /// The stream ingesters and the background task listener.
    Ingester,
}

/// The name a role is written as.
pub open spec fn role_name(role: IngesterRole) -> Seq<char> {
    match role {
        IngesterRole::All => "all"@,
        IngesterRole::Backfiller => "backfiller"@,
        IngesterRole::BackgroundTaskRunner => "background_task_runner"@,
        IngesterRole::Ingester => "ingester"@,
    }
}

impl IngesterRole {
    /// The role's name.
    pub fn to_string(&self) -> (r: String)
        ensures
            r@ == role_name(*self),
    {
        match self {
            IngesterRole::All => "all".to_owned(),
            IngesterRole::Backfiller => "backfiller".to_owned(),
            IngesterRole::BackgroundTaskRunner => "background_task_runner".to_owned(),
            IngesterRole::Ingester => "ingester".to_owned(),
        }
    }
}

/// The role a process runs where its configuration names none.
pub fn role_or_default(role: Option<IngesterRole>) -> (r: IngesterRole)
    ensures
        r == match role {
            Some(x) => x,
            None => IngesterRole::All,
        },
{
    match role {
        Some(x) => x,
        None => IngesterRole::All,
    }
}

/// Whether `c` is an ASCII letter or digit.
pub open spec fn is_alphanumeric(c: u8) -> bool {
    (48 <= c <= 57) || (65 <= c <= 90) || (97 <= c <= 122)
}

/// Relies on `rand::thread_rng().sample(Alphanumeric)`: one byte drawn from
/// the ASCII letters and digits.
#[verifier::external_body]
fn random_alphanumeric() -> (r: u8)
    ensures
        is_alphanumeric(r),
{
    rand::thread_rng().sample(rand::distributions::Alphanumeric)
}

/// Relies on `String::push`: appends `c` to `s`.
#[verifier::external_body]
fn push_char(s: &mut String, c: char)
    ensures
        final(s)@ == old(s)@.push(c),
{
    s.push(c)
}

/// Length of the random consumer names.
pub const RAND_STRING_LEN: usize = 30;

/// A random name of `RAND_STRING_LEN` ASCII letters and digits.
pub fn rand_string() -> (r: String)
    ensures
        r@.len() == RAND_STRING_LEN,
        forall|i: int|
            0 <= i < r@.len() ==> is_alphanumeric(#[trigger] r@[i] as u8) && (r@[i] as u32) < 128,
{
    let mut s = String::new();
    let mut i: usize = 0;
    while i < RAND_STRING_LEN
        invariant
            0 <= i <= RAND_STRING_LEN,
            s@.len() == i,
            forall|j: int|
                0 <= j < s@.len() ==> is_alphanumeric(#[trigger] s@[j] as u8) && (s@[j] as u32)
                    < 128,
        decreases RAND_STRING_LEN - i,
    {
        let b = random_alphanumeric();
        let c = b as char;
        push_char(&mut s, c);
        i = i + 1;
    }
    s
}

/// An instruction names an account position that the transaction's key
/// list does not reach.
#[derive(Debug, Clone, Copy, PartialEq, Eq, Structural)]
pub struct MissingAccounts;

/// The largest account position of `accounts`, 0 for none.
pub open spec fn max_position(accounts: Seq<u8>) -> int
    decreases accounts.len(),
{
    if accounts.len() == 0 {
        0
    } else {
        let prev = max_position(accounts.drop_last());
        if accounts.last() > prev {
            accounts.last() as int
        } else {
            prev
        }
    }
}

/// The keys of `keys` at the positions of `accounts` that lie within it.
pub open spec fn keys_at(keys: Seq<[u8; 32]>, accounts: Seq<u8>) -> Seq<[u8; 32]>
    decreases accounts.len(),
{
    if accounts.len() == 0 {
        seq![]
    } else {
        let prev = keys_at(keys, accounts.drop_last());
        let a = accounts.last() as int;
        if a < keys.len() {
            prev.push(keys[a])
        } else {
            prev
        }
    }
}

/// The account keys of an instruction, looked up by position in the
/// transaction's key list. Fails where the largest position exceeds the
/// list's length; a position equal to the length is skipped.
pub fn select_instruction_keys(keys: &Vec<[u8; 32]>, accounts: &Vec<u8>) -> (r: Result<
    Vec<[u8; 32]>,
    MissingAccounts,
>)
    ensures
        r is Err <==> keys.len() < max_position(accounts@),
        r is Ok ==> r->Ok_0@ == keys_at(keys@, accounts@),
{
    let mut max: u8 = 0;
    let mut i: usize = 0;
    while i < accounts.len()
        invariant
            0 <= i <= accounts.len(),
            max == max_position(accounts@.take(i as int)),
        decreases accounts.len() - i,
    {
        assert(accounts@.take(i + 1).drop_last() =~= accounts@.take(i as int));
        if accounts[i] > max {
            max = accounts[i];
        }
        i = i + 1;
    }
    assert(accounts@.take(accounts.len() as int) =~= accounts@);
    if keys.len() < max as usize {
        return Err(MissingAccounts);
    }
    let mut out: Vec<[u8; 32]> = Vec::new();
    let mut j: usize = 0;
    while j < accounts.len()
        invariant
            0 <= j <= accounts.len(),
            out@ == keys_at(keys@, accounts@.take(j as int)),
        decreases accounts.len() - j,
    {
        assert(accounts@.take(j + 1).drop_last() =~= accounts@.take(j as int));
        let a = accounts[j] as usize;
        if a < keys.len() {
            out.push(keys[a]);
        }
        j = j + 1;
    }
    assert(accounts@.take(accounts.len() as int) =~= accounts@);
    Ok(out)
}

} // verus!
