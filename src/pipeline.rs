use vstd::prelude::*;

verus! {

/// How many signatures one page of a signature search asks for.
pub const SIGNATURE_PAGE_LIMIT: usize = 1000;

/// Fetch-and-forward workers where the caller names no count.
pub const DEFAULT_TXN_CONCURRENCY: usize = 20;

/// Signature resolvers where the caller names no count.
pub const DEFAULT_SIGS_CONCURRENCY: usize = 3;

/// How many times a transaction fetch is attempted before it is given up.
pub const TXN_FETCH_ATTEMPTS: u8 = 5;

/// The bounds of a backward search through a tree's signature history: only
/// signatures older than `before` and newer than `until` are listed; an
/// absent bound leaves that side open.
#[derive(Debug, Clone, Copy, PartialEq, Eq)]
pub struct SignatureWindow {
    pub before: Option<[u8; 64]>,
    pub until: Option<[u8; 64]>,
}

/// The worker counts of a repair: fetch-and-forward workers, then signature
/// resolvers.
pub fn pipeline_concurrency(get_txn_concurrency: Option<usize>, get_sigs_concurrency: Option<
    usize,
>) -> (r: (usize, usize))
    ensures
        r.0 == match get_txn_concurrency {
            Some(n) => n,
            None => DEFAULT_TXN_CONCURRENCY,
        },
        r.1 == match get_sigs_concurrency {
            Some(n) => n,
            None => DEFAULT_SIGS_CONCURRENCY,
        },
{
    let txn = match get_txn_concurrency {
        Some(n) => n,
        None => DEFAULT_TXN_CONCURRENCY,
    };
    let sigs = match get_sigs_concurrency {
        Some(n) => n,
        None => DEFAULT_SIGS_CONCURRENCY,
    };
    (txn, sigs)
}

/// The window that searches a gap: it opens below the first indexed
/// transaction at or after the gap's end and closes above the last indexed
/// transaction at or before the gap's start.
pub fn gap_window(after_end: Option<[u8; 64]>, before_start: Option<[u8; 64]>) -> (r: SignatureWindow)
    ensures
        r == (SignatureWindow { before: after_end, until: before_start }),
{
    SignatureWindow { before: after_end, until: before_start }
}

/// Where a search goes after a page of signatures, newest first: every
/// signature of the page is handed on, and the search goes on below the
/// oldest of them; an empty page ends it.
pub fn next_window(window: SignatureWindow, page: &Vec<[u8; 64]>) -> (r: Option<SignatureWindow>)
    ensures
        page.len() == 0 ==> r is None,
        page.len() > 0 ==> r == Some(
            SignatureWindow { before: Some(page@.last()), until: window.until },
        ),
{
    if page.len() == 0 {
        None
    } else {
        Some(SignatureWindow { before: Some(page[page.len() - 1]), until: window.until })
    }
}

/// Whether a fetched transaction was applied on chain: it carries status
/// metadata (`Some`) and that status is success (`true`). Only such a
/// transaction is forwarded or decoded.
pub fn applied_on_chain(status: Option<bool>) -> (r: bool)
    ensures
        r == (status == Some(true)),
{
    match status {
        Some(ok) => ok,
        None => false,
    }
}

/// What a fetch-and-forward worker learned from one fetch attempt.
#[derive(Debug, Clone, Copy, PartialEq, Eq, Structural)]
pub enum FetchEvent {
    /// The transaction came back; `applied` tells whether it succeeded on
    /// chain with metadata.
    Fetched { applied: bool },
    /// The fetch failed.
    Failed,
}

/// What a fetch-and-forward worker does next.
#[derive(Debug, Clone, Copy, PartialEq, Eq, Structural)]
pub enum FetchAction {
    /// Encode the transaction and send it to the ingester's stream.
    Forward,
    /// Drop the transaction: it cannot be ingested, which is no error.
    Drop,
    /// Fetch again.
    Retry,
    /// Give the signature up after the last attempt failed.
    GiveUp,
}

/// Decides, after `attempts` fetch attempts of which the last gave `event`,
/// what a worker does with a signature, allowing `max_attempts` attempts.
pub fn fetch_step(attempts: u8, max_attempts: u8, event: FetchEvent) -> (r: FetchAction)
    ensures
        event == (FetchEvent::Fetched { applied: true }) ==> r == FetchAction::Forward,
        event == (FetchEvent::Fetched { applied: false }) ==> r == FetchAction::Drop,
        event == FetchEvent::Failed && attempts < max_attempts ==> r == FetchAction::Retry,
        event == FetchEvent::Failed && attempts >= max_attempts ==> r == FetchAction::GiveUp,
{
    match event {
        FetchEvent::Fetched { applied } => {
            if applied {
                FetchAction::Forward
            } else {
                FetchAction::Drop
            }
        },
        FetchEvent::Failed => {
            if attempts < max_attempts {
                FetchAction::Retry
            } else {
                FetchAction::GiveUp
            }
        },
    }
}

} // verus!
