use vstd::prelude::*;
use std::collections::HashMap;

verus! {

broadcast use vstd::std_specs::hash::group_hash_axioms;

/// The leaf end of a change-log path: the leaf's hash and its leaf slot.
#[derive(Debug, Clone, Copy, PartialEq, Eq)]
pub struct LeafNode {
    pub leaf: [u8; 32],
    pub index: i64,
}

/// One change applied to a tree: its sequence number and, where the event
/// named a path, the leaf it touched.
pub type SeqUpdate = (u64, Option<LeafNode>);

/// The latest change seen for a leaf: the transaction's signature and the
/// change's sequence number.
pub type LatestChange = ([u8; 64], u64);

/// What the audit knows of the chain: per leaf, the change with the highest
/// sequence number seen, and the leaves in the order first seen.
pub type ChainLeaves = (Map<i64, LatestChange>, Seq<i64>);

/// Takes note of a change of sequence `seq` to `leaf` in transaction `sig`:
/// it becomes the leaf's latest unless one with a higher or equal sequence
/// number was seen first.
pub open spec fn note_change(st: ChainLeaves, leaf: i64, sig: [u8; 64], seq: u64) -> ChainLeaves {
    let m = st.0;
    let order = if m.contains_key(leaf) {
        st.1
    } else {
        st.1.push(leaf)
    };
    if !m.contains_key(leaf) || m[leaf].1 < seq {
        (m.insert(leaf, (sig, seq)), order)
    } else {
        (m, order)
    }
}

/// Takes note, in order, of the changes of one transaction.
pub open spec fn note_updates(st: ChainLeaves, sig: [u8; 64], ups: Seq<SeqUpdate>) -> ChainLeaves
    decreases ups.len(),
{
    if ups.len() == 0 {
        st
    } else {
        let prev = note_updates(st, sig, ups.drop_last());
        match ups.last().1 {
            Some(node) => note_change(prev, node.index, sig, ups.last().0),
            None => prev,
        }
    }
}

/// Collects, per leaf, the latest change that the chain shows.
pub struct LatestLeaves {
    latest: HashMap<i64, LatestChange>,
    order: Vec<i64>,
}

impl LatestLeaves {
    pub closed spec fn view(&self) -> ChainLeaves {
        (self.latest@, self.order@)
    }

    pub closed spec fn wf(&self) -> bool {
        &&& self.order@.no_duplicates()
        &&& forall|k: i64| #[trigger] self.latest@.contains_key(k) <==> self.order@.contains(k)
    }

    /// Nothing seen yet.
    pub fn new() -> (r: Self)
        ensures
            r.wf(),
            r.view() == (Map::<i64, LatestChange>::empty(), Seq::<i64>::empty()),
    {
        LatestLeaves { latest: HashMap::new(), order: Vec::new() }
    }

    /// Takes note of the changes that transaction `signature` applied to
    /// the tree.
    pub fn observe(&mut self, signature: [u8; 64], updates: &Vec<SeqUpdate>)
        requires
            old(self).wf(),
        ensures
            final(self).wf(),
            final(self).view() == note_updates(old(self).view(), signature, updates@),
    {
        let ghost start = self.view();
        let mut i: usize = 0;
        while i < updates.len()
            invariant
                0 <= i <= updates.len(),
                self.wf(),
                self.view() == note_updates(start, signature, updates@.take(i as int)),
            decreases updates.len() - i,
        {
            assert(updates@.take(i + 1).drop_last() =~= updates@.take(i as int));
            let seq = updates[i].0;
            if let Some(node) = &updates[i].1 {
                let leaf = node.index;
                let seen = match self.latest.get(&leaf) {
                    Some(prev) => Some(prev.1),
                    None => None,
                };
                match seen {
                    None => {
                        let ghost old_order = self.order@;
                        self.latest.insert(leaf, (signature, seq));
                        self.order.push(leaf);
                        assert forall|k: i64| #[trigger]
                            self.latest@.contains_key(k) <==> self.order@.contains(k) by {
                            if k == leaf {
                                assert(self.order@[self.order@.len() - 1] == leaf);
                            } else {
                                if old_order.contains(k) {
                                    let t = choose|t: int| 0 <= t < old_order.len() && old_order[t] == k;
                                    assert(self.order@[t] == k);
                                }
                                if self.order@.contains(k) {
                                    let t = choose|t: int|
                                        0 <= t < self.order@.len() && self.order@[t] == k;
                                    assert(old_order[t] == k);
                                }
                            }
                        }
                    },
                    Some(prev_seq) => {
                        if prev_seq < seq {
                            self.latest.insert(leaf, (signature, seq));
                        }
                    },
                }
            }
            i = i + 1;
        }
        assert(updates@.take(updates.len() as int) =~= updates@);
    }
}

/// A disagreement between the chain and the index about a leaf.
#[derive(Debug, Clone, Copy, PartialEq, Eq)]
pub enum LeafAnomaly {
    /// The index's latest sequence number for the leaf is not the chain's.
    SeqMismatch { leaf_idx: i64, db_seq: i64, chain_seq: u64, signature: [u8; 64] },
    /// The index holds a leaf that no change on chain touched.
    NotOnChain { leaf_idx: i64 },
    /// A leaf that the chain changed has no row in the index.
    MissingFromIndex { leaf_idx: i64, seq: u64, signature: [u8; 64] },
}

/// Checks the index's rows `(leaf, latest sequence)` one by one against the
/// chain's leaves `m`: a leaf's entry is used up by its first row.
pub open spec fn check_rows(m: Map<i64, LatestChange>, rows: Seq<(i64, i64)>) -> (
    Seq<LeafAnomaly>,
    Map<i64, LatestChange>,
)
    decreases rows.len(),
{
    if rows.len() == 0 {
        (seq![], m)
    } else {
        let prev = check_rows(m, rows.drop_last());
        let (leaf, db_seq) = rows.last();
        if prev.1.contains_key(leaf) {
            let (sig, seq) = prev.1[leaf];
            let found = if db_seq as int != seq as int {
                prev.0.push(
                    LeafAnomaly::SeqMismatch {
                        leaf_idx: leaf,
                        db_seq,
                        chain_seq: seq,
                        signature: sig,
                    },
                )
            } else {
                prev.0
            };
            (found, prev.1.remove(leaf))
        } else {
            (prev.0.push(LeafAnomaly::NotOnChain { leaf_idx: leaf }), prev.1)
        }
    }
}

/// The leaves of `order` that `m` still holds, each reported as missing from
/// the index.
pub open spec fn unmatched(m: Map<i64, LatestChange>, order: Seq<i64>) -> Seq<LeafAnomaly>
    decreases order.len(),
{
    if order.len() == 0 {
        seq![]
    } else {
        let prev = unmatched(m, order.drop_last());
        let leaf = order.last();
        if m.contains_key(leaf) {
            prev.push(
                LeafAnomaly::MissingFromIndex {
                    leaf_idx: leaf,
                    seq: m[leaf].1,
                    signature: m[leaf].0,
                },
            )
        } else {
            prev
        }
    }
}

/// Everything that the chain's leaves `st` and the index's rows disagree on:
/// first what the rows show, in their order, then the leaves that no row
/// named, in the order the chain showed them.
pub open spec fn audit(st: ChainLeaves, rows: Seq<(i64, i64)>) -> Seq<LeafAnomaly> {
    let (found, rest) = check_rows(st.0, rows);
    found + unmatched(rest, st.1)
}

/// Cross-checks the latest change per leaf on chain with the index's rows
/// `(leaf index, latest sequence number)`.
pub fn audit_leaves(chain: LatestLeaves, db_rows: &Vec<(i64, i64)>) -> (r: Vec<LeafAnomaly>)
    requires
        chain.wf(),
    ensures
        r@ == audit(chain.view(), db_rows@),
{
    let ghost m0 = chain.view().0;
    let LatestLeaves { latest, order } = chain;
    let mut latest = latest;
    let mut found: Vec<LeafAnomaly> = Vec::new();
    let mut i: usize = 0;
    while i < db_rows.len()
        invariant
            0 <= i <= db_rows.len(),
            check_rows(m0, db_rows@.take(i as int)) == (found@, latest@),
        decreases db_rows.len() - i,
    {
        assert(db_rows@.take(i + 1).drop_last() =~= db_rows@.take(i as int));
        let (leaf, db_seq) = db_rows[i];
        match latest.remove(&leaf) {
            Some(entry) => {
                let (sig, seq) = entry;
                if db_seq < 0 || db_seq as u64 != seq {
                    found.push(
                        LeafAnomaly::SeqMismatch {
                            leaf_idx: leaf,
                            db_seq,
                            chain_seq: seq,
                            signature: sig,
                        },
                    );
                }
            },
            None => {
                found.push(LeafAnomaly::NotOnChain { leaf_idx: leaf });
            },
        }
        i = i + 1;
    }
    assert(db_rows@.take(db_rows.len() as int) =~= db_rows@);
    let mut j: usize = 0;
    let ghost found_rows = found@;
    while j < order.len()
        invariant
            0 <= j <= order.len(),
            found@ == found_rows + unmatched(latest@, order@.take(j as int)),
        decreases order.len() - j,
    {
        assert(order@.take(j + 1).drop_last() =~= order@.take(j as int));
        let leaf = order[j];
        match latest.get(&leaf) {
            Some(entry) => {
                found.push(
                    LeafAnomaly::MissingFromIndex {
                        leaf_idx: leaf,
                        seq: entry.1,
                        signature: entry.0,
                    },
                );
            },
            None => {},
        }
        j = j + 1;
    }
    assert(order@.take(order.len() as int) =~= order@);
    found
}

/// The leaf indices that the index's rows name, in order.
pub open spec fn row_leaves(rows: Seq<(i64, i64)>) -> Seq<i64> {
    rows.map_values(|r: (i64, i64)| r.0)
}

proof fn lemma_push_keeps<A>(s: Seq<A>, x: A, v: A)
    requires
        s.contains(v),
    ensures
        s.push(x).contains(v),
{
    let i = choose|i: int| 0 <= i < s.len() && s[i] == v;
    assert(s.push(x)[i] == v);
}

proof fn lemma_check_rows_reports(m: Map<i64, LatestChange>, rows: Seq<(i64, i64)>)
    requires
        row_leaves(rows).no_duplicates(),
    ensures
        forall|k: i64| #[trigger]
            check_rows(m, rows).1.contains_key(k) <==> (m.contains_key(k) && !row_leaves(
                rows,
            ).contains(k)),
        forall|k: i64| #[trigger]
            check_rows(m, rows).1.contains_key(k) ==> check_rows(m, rows).1[k] == m[k],
        forall|j: int|
            0 <= j < rows.len() && m.contains_key(#[trigger] rows[j].0) && m[rows[j].0].1 as int
                != rows[j].1 as int ==> check_rows(m, rows).0.contains(
                LeafAnomaly::SeqMismatch {
                    leaf_idx: rows[j].0,
                    db_seq: rows[j].1,
                    chain_seq: m[rows[j].0].1,
                    signature: m[rows[j].0].0,
                },
            ),
        forall|j: int|
            0 <= j < rows.len() && !m.contains_key(#[trigger] rows[j].0) ==> check_rows(
                m,
                rows,
            ).0.contains(LeafAnomaly::NotOnChain { leaf_idx: rows[j].0 }),
    decreases rows.len(),
{
    if rows.len() > 0 {
        let p = rows.drop_last();
        let x = rows.last();
        assert(row_leaves(p) =~= row_leaves(rows).drop_last());
        lemma_check_rows_reports(m, p);
        let (f, r) = check_rows(m, p);
        let leaf = x.0;
        assert(row_leaves(rows)[rows.len() - 1] == leaf);
        assert(!row_leaves(p).contains(leaf)) by {
            if row_leaves(p).contains(leaf) {
                let i = choose|i: int| 0 <= i < row_leaves(p).len() && row_leaves(p)[i] == leaf;
                assert(row_leaves(rows)[i] == leaf);
            }
        }
        assert forall|k: i64| row_leaves(rows).contains(k) <==> (row_leaves(p).contains(k) || k
            == leaf) by {
            if row_leaves(rows).contains(k) {
                let i = choose|i: int| 0 <= i < row_leaves(rows).len() && row_leaves(rows)[i] == k;
                if i < rows.len() - 1 {
                    assert(row_leaves(p)[i] == k);
                }
            }
            if row_leaves(p).contains(k) {
                let i = choose|i: int| 0 <= i < row_leaves(p).len() && row_leaves(p)[i] == k;
                assert(row_leaves(rows)[i] == k);
            }
            if k == leaf {
                assert(row_leaves(rows)[rows.len() - 1] == k);
            }
        }
        let out = check_rows(m, rows);
        assert forall|j: int|
            0 <= j < rows.len() && m.contains_key(#[trigger] rows[j].0) && m[rows[j].0].1 as int
                != rows[j].1 as int implies out.0.contains(
            LeafAnomaly::SeqMismatch {
                leaf_idx: rows[j].0,
                db_seq: rows[j].1,
                chain_seq: m[rows[j].0].1,
                signature: m[rows[j].0].0,
            },
        ) by {
            let v = LeafAnomaly::SeqMismatch {
                leaf_idx: rows[j].0,
                db_seq: rows[j].1,
                chain_seq: m[rows[j].0].1,
                signature: m[rows[j].0].0,
            };
            if j < rows.len() - 1 {
                assert(p[j] == rows[j]);
                assert(f.contains(v));
                if r.contains_key(leaf) && r[leaf].1 as int != x.1 as int {
                    lemma_push_keeps(f, out.0.last(), v);
                    assert(out.0 == f.push(out.0.last()));
                } else if !r.contains_key(leaf) {
                    lemma_push_keeps(f, LeafAnomaly::NotOnChain { leaf_idx: leaf }, v);
                }
            } else {
                assert(r.contains_key(leaf));
                assert(out.0[out.0.len() - 1] == v);
            }
        }
        assert forall|j: int|
            0 <= j < rows.len() && !m.contains_key(#[trigger] rows[j].0) implies out.0.contains(
            LeafAnomaly::NotOnChain { leaf_idx: rows[j].0 },
        ) by {
            let v = LeafAnomaly::NotOnChain { leaf_idx: rows[j].0 };
            if j < rows.len() - 1 {
                assert(p[j] == rows[j]);
                assert(f.contains(v));
                if r.contains_key(leaf) && r[leaf].1 as int != x.1 as int {
                    lemma_push_keeps(f, out.0.last(), v);
                    assert(out.0 == f.push(out.0.last()));
                } else if !r.contains_key(leaf) {
                    lemma_push_keeps(f, LeafAnomaly::NotOnChain { leaf_idx: leaf }, v);
                }
            } else {
                assert(!r.contains_key(leaf));
                assert(out.0[out.0.len() - 1] == v);
            }
        }
    }
}

proof fn lemma_unmatched_reports(m: Map<i64, LatestChange>, order: Seq<i64>, k: i64)
    requires
        m.contains_key(k),
        order.contains(k),
    ensures
        unmatched(m, order).contains(
            LeafAnomaly::MissingFromIndex { leaf_idx: k, seq: m[k].1, signature: m[k].0 },
        ),
    decreases order.len(),
{
    let v = LeafAnomaly::MissingFromIndex { leaf_idx: k, seq: m[k].1, signature: m[k].0 };
    let p = order.drop_last();
    let u = unmatched(m, order);
    if order.last() == k {
        assert(u[u.len() - 1] == v);
    } else {
        let i = choose|i: int| 0 <= i < order.len() && order[i] == k;
        assert(p[i] == k);
        lemma_unmatched_reports(m, p, k);
        if m.contains_key(order.last()) {
            lemma_push_keeps(unmatched(m, p), u.last(), v);
            assert(u == unmatched(m, p).push(u.last()));
        }
    }
}

/// The audit reports every disagreement between the chain and the index,
/// for rows that name each leaf at most once: a row whose leaf the chain
/// changed with another latest sequence number is a mismatch; a row whose
/// leaf the chain never changed is not on chain; a leaf the chain changed
/// that no row names is missing from the index.
pub proof fn lemma_audit_reports(st: ChainLeaves, rows: Seq<(i64, i64)>)
    requires
        forall|k: i64| #[trigger] st.0.contains_key(k) <==> st.1.contains(k),
        row_leaves(rows).no_duplicates(),
    ensures
        forall|j: int|
            0 <= j < rows.len() && st.0.contains_key(#[trigger] rows[j].0) && st.0[rows[j].0].1 as int
                != rows[j].1 as int ==> audit(st, rows).contains(
                LeafAnomaly::SeqMismatch {
                    leaf_idx: rows[j].0,
                    db_seq: rows[j].1,
                    chain_seq: st.0[rows[j].0].1,
                    signature: st.0[rows[j].0].0,
                },
            ),
        forall|j: int|
            0 <= j < rows.len() && !st.0.contains_key(#[trigger] rows[j].0) ==> audit(
                st,
                rows,
            ).contains(LeafAnomaly::NotOnChain { leaf_idx: rows[j].0 }),
        forall|k: i64|
            #[trigger] st.0.contains_key(k) && !row_leaves(rows).contains(k) ==> audit(
                st,
                rows,
            ).contains(
                LeafAnomaly::MissingFromIndex { leaf_idx: k, seq: st.0[k].1, signature: st.0[k].0 },
            ),
{
    let m = st.0;
    lemma_check_rows_reports(m, rows);
    let (found, rest) = check_rows(m, rows);
    let u = unmatched(rest, st.1);
    assert forall|v: LeafAnomaly| found.contains(v) implies #[trigger] (found + u).contains(v) by {
        let i = choose|i: int| 0 <= i < found.len() && found[i] == v;
        assert((found + u)[i] == v);
    }
    assert forall|k: i64|
        #[trigger] m.contains_key(k) && !row_leaves(rows).contains(k) implies (found + u).contains(
        LeafAnomaly::MissingFromIndex { leaf_idx: k, seq: m[k].1, signature: m[k].0 },
    ) by {
        assert(rest.contains_key(k));
        lemma_unmatched_reports(rest, st.1, k);
        let v = LeafAnomaly::MissingFromIndex { leaf_idx: k, seq: m[k].1, signature: m[k].0 };
        let i = choose|i: int| 0 <= i < u.len() && u[i] == v;
        assert((found + u)[found.len() + i] == v);
    }
}

} // verus!
