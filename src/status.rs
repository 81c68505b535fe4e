use vstd::prelude::*;
use vstd::set_lib::{set_int_range, lemma_int_range, lemma_len_subset, lemma_subset_equality};

verus! {

/// What the index holds of a tree: the largest sequence number indexed and
/// how many distinct sequence numbers are indexed.
#[derive(Debug, Clone, Copy, PartialEq, Eq, Structural)]
pub struct SeqSummary {
    pub max_seq: i64,
    pub cnt_seq: i64,
}

/// How the index's latest sequence number stands against the chain's.
#[derive(Debug, Clone, Copy, PartialEq, Eq, Structural)]
pub enum TipStatus {
    /// The index lags behind the chain.
    Behind,
    /// The index has reached the chain's sequence number.
    UpToDate,
    /// The index claims more than the chain has: an indexer fault.
    Ahead,
}

/// Why a tree's sequence state could not be compared.
#[derive(Debug, Clone, Copy, PartialEq, Eq, Structural)]
pub enum TreeCheckError {
    /// The chain's sequence number does not fit an index sequence number.
    SeqOutOfRange(u64),
    /// The index holds no record of the tree.
    NotIndexed,
}

/// The outcome of comparing a tree's on-chain sequence number with the index.
#[derive(Debug, Clone, Copy, PartialEq, Eq, Structural)]
pub struct TreeCheck {
    pub onchain_seq: i64,
    pub summary: SeqSummary,
    pub tip: TipStatus,
    pub has_gaps: bool,
}

pub open spec fn tip_of(indexed: int, onchain: int) -> TipStatus {
    if indexed < onchain {
        TipStatus::Behind
    } else if indexed == onchain {
        TipStatus::UpToDate
    } else {
        TipStatus::Ahead
    }
}

/// Compares the index's latest sequence number with the chain's.
pub fn tip_status(indexed: i64, onchain: i64) -> (r: TipStatus)
    ensures
        r == tip_of(indexed as int, onchain as int),
{
    if indexed < onchain {
        TipStatus::Behind
    } else if indexed == onchain {
        TipStatus::UpToDate
    } else {
        TipStatus::Ahead
    }
}

/// Whether some sequence number up to the largest indexed one is missing:
/// the distinct count falls short of the largest number.
pub fn has_gaps(summary: &SeqSummary) -> (r: bool)
    ensures
        r == has_gaps_spec(*summary),
{
    summary.max_seq != summary.cnt_seq
}

/// Compares a tree's on-chain sequence number with the index's summary of
/// it (`None` where the index holds no record of the tree).
pub fn check_tree_seq(onchain_seq: u64, summary: Option<SeqSummary>) -> (r: Result<
    TreeCheck,
    TreeCheckError,
>)
    ensures
        onchain_seq > i64::MAX ==> r == Err::<TreeCheck, TreeCheckError>(
            TreeCheckError::SeqOutOfRange(onchain_seq),
        ),
        onchain_seq <= i64::MAX && summary is None ==> r == Err::<TreeCheck, TreeCheckError>(
            TreeCheckError::NotIndexed,
        ),
        onchain_seq <= i64::MAX && summary is Some ==> r == Ok::<TreeCheck, TreeCheckError>(
            (TreeCheck {
                onchain_seq: onchain_seq as i64,
                summary: summary->Some_0,
                tip: tip_of(summary->Some_0.max_seq as int, onchain_seq as int),
                has_gaps: has_gaps_spec(summary->Some_0),
            }),
        ),
{
    if onchain_seq > i64::MAX as u64 {
        return Err(TreeCheckError::SeqOutOfRange(onchain_seq));
    }
    let onchain = onchain_seq as i64;
    match summary {
        None => Err(TreeCheckError::NotIndexed),
        Some(s) => {
            let tip = tip_status(s.max_seq, onchain);
            let gaps = has_gaps(&s);
            Ok(TreeCheck { onchain_seq: onchain, summary: s, tip, has_gaps: gaps })
        },
    }
}

/// The summary of an index whose distinct sequence numbers are `present`,
/// the largest of them being `max_seq`.
pub open spec fn summary_of(present: Set<int>, max_seq: int) -> SeqSummary {
    SeqSummary { max_seq: max_seq as i64, cnt_seq: present.len() as i64 }
}

/// Sequence numbers run from 1 up: where every indexed number lies in
/// `1..=max_seq` and `max_seq` is indexed, the distinct count equals `max_seq`
/// exactly when no number in between is missing, and falls below it
/// otherwise. Rows that repeat a number do not change the distinct count, so
/// duplicates cannot hide a gap. A tree indexed in full up to the chain's
/// sequence number is reported up to date and without gaps.
pub proof fn lemma_distinct_count_detects_gaps(present: Set<int>, max_seq: int, onchain: int)
    requires
        1 <= max_seq <= i64::MAX,
        present.contains(max_seq),
        forall|v: int| #[trigger] present.contains(v) ==> 1 <= v <= max_seq,
    ensures
        present.finite(),
        present.len() <= max_seq,
        present.len() == max_seq <==> (forall|v: int| 1 <= v <= max_seq ==> #[trigger] present.contains(v)),
        present.len() < max_seq <==> (exists|v: int| 1 <= v <= max_seq && !#[trigger] present.contains(v)),
        has_gaps_spec(summary_of(present, max_seq)) <==> (exists|v: int|
            1 <= v <= max_seq && !#[trigger] present.contains(v)),
        onchain == max_seq && (forall|v: int| 1 <= v <= onchain ==> #[trigger] present.contains(v))
            ==> tip_of(summary_of(present, max_seq).max_seq as int, onchain) == TipStatus::UpToDate
            && !has_gaps_spec(summary_of(present, max_seq)),
{
    let full = set_int_range(1, max_seq + 1);
    lemma_int_range(1, max_seq + 1);
    assert(present.subset_of(full));
    lemma_len_subset(present, full);
    if forall|v: int| 1 <= v <= max_seq ==> #[trigger] present.contains(v) {
        assert(present =~= full);
    }
    if present.len() == max_seq {
        lemma_subset_equality(present, full);
        assert forall|v: int| 1 <= v <= max_seq implies #[trigger] present.contains(v) by {
            assert(full.contains(v));
        }
    }
}

/// Whether a summary shows a gap, as `has_gaps` reports it.
pub open spec fn has_gaps_spec(summary: SeqSummary) -> bool {
    summary.max_seq != summary.cnt_seq
}

/// Whether a tree needs repair: the index lags behind the chain, or some
/// sequence number up to its largest one is missing.
pub open spec fn needs_repair_spec(check: TreeCheck) -> bool {
    check.has_gaps || check.tip == TipStatus::Behind
}

/// Whether a checked tree needs repair: the index lags behind the chain, or
/// some sequence number up to its largest one is missing. Either way the
/// missing numbers are those in `1..=onchain_seq` that the index lacks.
pub fn needs_repair(check: &TreeCheck) -> (r: bool)
    ensures
        r == needs_repair_spec(*check),
{
    check.has_gaps || check.tip == TipStatus::Behind
}

/// A tree indexed without gaps up to `m`, below the chain's sequence number
/// `n`, is reported as behind and needs repair; one indexed in full up to `n`
/// needs none.
pub proof fn lemma_incomplete_tree_needs_repair(present: Set<int>, m: int, n: int)
    requires
        1 <= m <= i64::MAX,
        1 <= n <= i64::MAX,
        forall|v: int| #[trigger] present.contains(v) <==> 1 <= v <= m,
    ensures
        m < n ==> needs_repair_spec(
            TreeCheck {
                onchain_seq: n as i64,
                summary: summary_of(present, m),
                tip: tip_of(m, n),
                has_gaps: has_gaps_spec(summary_of(present, m)),
            },
        ),
        m == n ==> !needs_repair_spec(
            TreeCheck {
                onchain_seq: n as i64,
                summary: summary_of(present, m),
                tip: tip_of(m, n),
                has_gaps: has_gaps_spec(summary_of(present, m)),
            },
        ),
{
    lemma_distinct_count_detects_gaps(present, m, n);
}

} // verus!
