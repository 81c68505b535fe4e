use vstd::prelude::*;

verus! {

/// Two repair ranges are merged when the later one starts at most this many
/// sequence numbers after the earlier one ends.
pub const JOIN_GAP: i64 = 10;

/// Whether `v` lies in the closed range `p`.
pub open spec fn in_range(p: (i64, i64), v: int) -> bool {
    p.0 <= v <= p.1
}

/// Whether some range of `r` holds `v`.
pub open spec fn covered(r: Seq<(i64, i64)>, v: int) -> bool {
    exists|k: int| 0 <= k < r.len() && #[trigger] in_range(r[k], v)
}

/// Whether `v` is one of the values of `s`.
pub open spec fn holds(s: Seq<i64>, v: int) -> bool {
    exists|i: int| 0 <= i < s.len() && s[i] == v
}

/// Strictly ascending: sorted and free of duplicates.
pub open spec fn strictly_ascending(s: Seq<i64>) -> bool {
    forall|i: int, j: int| 0 <= i < j < s.len() ==> s[i] < s[j]
}

/// Run-length compression of `s`: a value that follows the end of the last
/// range by one extends it, any other value opens a new range.
pub open spec fn runs(s: Seq<i64>) -> Seq<(i64, i64)>
    decreases s.len(),
{
    if s.len() == 0 {
        seq![]
    } else {
        let prev = runs(s.drop_last());
        let x = s.last();
        if prev.len() > 0 && prev.last().1 + 1 == x {
            prev.update(prev.len() - 1, (prev.last().0, x))
        } else {
            prev.push((x, x))
        }
    }
}

/// Merges each range into the one before it when it starts no more than
/// `gap` after that one's end.
pub open spec fn joined(r: Seq<(i64, i64)>, gap: int) -> Seq<(i64, i64)>
    decreases r.len(),
{
    if r.len() == 0 {
        seq![]
    } else {
        let prev = joined(r.drop_last(), gap);
        let x = r.last();
        if prev.len() > 0 && prev.last().1 + gap >= x.0 {
            prev.update(prev.len() - 1, (prev.last().0, x.1))
        } else {
            prev.push(x)
        }
    }
}

/// The repair ranges for the missing sequence numbers `s`.
pub open spec fn seq_ranges(s: Seq<i64>) -> Seq<(i64, i64)> {
    joined(runs(s), JOIN_GAP as int)
}

/// Each range is well formed and lies more than `gap` below the next one.
pub open spec fn separated(r: Seq<(i64, i64)>, gap: int) -> bool {
    &&& forall|k: int| 0 <= k < r.len() ==> (#[trigger] r[k]).0 <= r[k].1
    &&& forall|k1: int, k2: int| 0 <= k1 < k2 < r.len() ==> r[k1].1 + gap < r[k2].0
}

/// Compresses `seqs` into maximal runs of consecutive integers.
pub fn contiguous_seq_ranges(seqs: &Vec<i64>) -> (r: Vec<(i64, i64)>)
    ensures
        r@ == runs(seqs@),
{
    let mut ranges: Vec<(i64, i64)> = Vec::new();
    if seqs.len() == 0 {
        return ranges;
    }
    let mut start: i64 = seqs[0];
    let mut end: i64 = seqs[0];
    let mut i: usize = 1;
    assert(seqs@.take(1).drop_last() =~= seq![]);
    assert(runs(seqs@.take(1).drop_last()) =~= seq![]);
    assert(ranges@.push((start, end)) =~= seq![(start, end)]);
    while i < seqs.len()
        invariant
            1 <= i <= seqs.len(),
            runs(seqs@.take(i as int)) == ranges@.push((start, end)),
        decreases seqs.len() - i,
    {
        let num = seqs[i];
        assert(seqs@.take(i + 1).drop_last() =~= seqs@.take(i as int));
        if (end as i128) + 1 == num as i128 {
            end = num;
        } else {
            ranges.push((start, end));
            start = num;
            end = num;
        }
        i = i + 1;
    }
    assert(seqs@.take(seqs.len() as int) =~= seqs@);
    ranges.push((start, end));
    ranges
}

/// Merges neighbouring ranges of `ranges` that lie within `max_gap` of each
/// other.
pub fn join_seq_ranges(ranges: &Vec<(i64, i64)>, max_gap: i64) -> (r: Vec<(i64, i64)>)
    ensures
        r@ == joined(ranges@, max_gap as int),
{
    let mut out: Vec<(i64, i64)> = Vec::new();
    if ranges.len() == 0 {
        return out;
    }
    let (mut start, mut end) = ranges[0];
    let mut i: usize = 1;
    assert(ranges@.take(1).drop_last() =~= seq![]);
    assert(joined(ranges@.take(1).drop_last(), max_gap as int) =~= seq![]);
    assert(out@.push((start, end)) =~= seq![(start, end)]);
    while i < ranges.len()
        invariant
            1 <= i <= ranges.len(),
            joined(ranges@.take(i as int), max_gap as int) == out@.push((start, end)),
        decreases ranges.len() - i,
    {
        let (s, e) = ranges[i];
        assert(ranges@.take(i + 1).drop_last() =~= ranges@.take(i as int));
        if (end as i128) + (max_gap as i128) >= s as i128 {
            end = e;
        } else {
            out.push((start, end));
            start = s;
            end = e;
        }
        i = i + 1;
    }
    assert(ranges@.take(ranges.len() as int) =~= ranges@);
    out.push((start, end));
    out
}

/// Turns ascending missing sequence numbers into the ranges that a repair
/// works through: runs of consecutive numbers, with runs no more than
/// `JOIN_GAP` apart merged into one.
pub fn build_seq_ranges(seqs: Vec<i64>) -> (r: Vec<(i64, i64)>)
    ensures
        r@ == seq_ranges(seqs@),
{
    let runs = contiguous_seq_ranges(&seqs);
    join_seq_ranges(&runs, JOIN_GAP)
}

proof fn lemma_runs_shape(s: Seq<i64>)
    requires
        strictly_ascending(s),
    ensures
        separated(runs(s), 1),
        forall|v: int| covered(runs(s), v) <==> holds(s, v),
        s.len() == 0 <==> runs(s).len() == 0,
        s.len() > 0 ==> runs(s).last().1 == s.last(),
        s.len() > 0 ==> runs(s)[0].0 == s[0],
    decreases s.len(),
{
    if s.len() > 0 {
        let p = s.drop_last();
        let x = s.last();
        lemma_runs_shape(p);
        let prev = runs(p);
        let r = runs(s);
        let n = prev.len();
        assert forall|v: int| holds(s, v) <==> (holds(p, v) || v == x) by {
            if holds(s, v) {
                let i = choose|i: int| 0 <= i < s.len() && s[i] == v;
                if i < s.len() - 1 {
                    assert(p[i] == v);
                }
            }
            if holds(p, v) {
                let i = choose|i: int| 0 <= i < p.len() && p[i] == v;
                assert(s[i] == v);
            }
            if v == x {
                assert(s[s.len() - 1] == v);
            }
        }
        if n > 0 {
            assert(p[0] == s[0]);
        }
        if n == 0 {
            assert(r == seq![(x, x)]);
            assert forall|v: int| covered(r, v) <==> holds(s, v) by {
                if v == x {
                    assert(in_range(r[0], v));
                }
            }
        } else {
            assert(p.last() == s[s.len() - 2]);
            assert(prev.last().1 < x);
            if prev.last().1 + 1 == x {
                assert forall|v: int| covered(r, v) <==> (covered(prev, v) || v == x) by {
                    if covered(r, v) {
                        let k = choose|k: int| 0 <= k < r.len() && in_range(r[k], v);
                        if k < n - 1 {
                            assert(in_range(prev[k], v));
                        } else if v < x {
                            assert(in_range(prev[n - 1], v));
                        }
                    }
                    if covered(prev, v) {
                        let k = choose|k: int| 0 <= k < prev.len() && in_range(prev[k], v);
                        assert(in_range(r[k], v));
                    }
                    if v == x {
                        assert(in_range(r[n - 1], v));
                    }
                }
            } else {
                assert forall|k: int| 0 <= k < n implies prev[k].1 <= prev.last().1 by {
                    if k < n - 1 {
                        assert(prev[k].1 + 1 < prev[n - 1].0);
                    }
                }
                assert forall|v: int| covered(r, v) <==> (covered(prev, v) || v == x) by {
                    if covered(r, v) {
                        let k = choose|k: int| 0 <= k < r.len() && in_range(r[k], v);
                        if k < n {
                            assert(in_range(prev[k], v));
                        }
                    }
                    if covered(prev, v) {
                        let k = choose|k: int| 0 <= k < prev.len() && in_range(prev[k], v);
                        assert(in_range(r[k], v));
                    }
                    if v == x {
                        assert(in_range(r[n as int], v));
                    }
                }
            }
        }
    }
}

/// The contiguity pass partitions strictly ascending input: every range is
/// well formed, the ranges ascend with at least one absent integer between
/// two of them, each input value lies in exactly one range, and a range holds
/// only input values.
pub proof fn lemma_runs_partition(s: Seq<i64>)
    requires
        strictly_ascending(s),
    ensures
        separated(runs(s), 1),
        forall|v: int| covered(runs(s), v) <==> holds(s, v),
        forall|v: int, k1: int, k2: int|
            0 <= k1 < runs(s).len() && 0 <= k2 < runs(s).len() && in_range(
                #[trigger] runs(s)[k1],
                v,
            ) && #[trigger] in_range(runs(s)[k2], v) ==> k1 == k2,
{
    lemma_runs_shape(s);
    let r = runs(s);
    assert forall|v: int, k1: int, k2: int|
        0 <= k1 < r.len() && 0 <= k2 < r.len() && in_range(#[trigger] r[k1], v) && #[trigger] in_range(
            r[k2],
            v,
        ) implies k1 == k2 by {
        if k1 < k2 {
            assert(r[k1].1 + 1 < r[k2].0);
        } else if k2 < k1 {
            assert(r[k2].1 + 1 < r[k1].0);
        }
    }
}

proof fn lemma_joined_shape(r: Seq<(i64, i64)>, gap: int)
    requires
        gap >= 0,
        separated(r, 0),
    ensures
        separated(joined(r, gap), gap),
        forall|v: int| covered(r, v) ==> covered(joined(r, gap), v),
        r.len() == 0 <==> joined(r, gap).len() == 0,
        r.len() > 0 ==> joined(r, gap).last().1 == r.last().1,
        r.len() > 0 ==> joined(r, gap)[0].0 == r[0].0,
    decreases r.len(),
{
    if r.len() > 0 {
        let p = r.drop_last();
        let x = r.last();
        lemma_joined_shape(p, gap);
        let prev = joined(p, gap);
        let out = joined(r, gap);
        let n = prev.len();
        assert(x == r[r.len() - 1]);
        if n == 0 {
            assert(out == seq![x]);
            assert forall|v: int| covered(r, v) implies covered(out, v) by {
                let k = choose|k: int| 0 <= k < r.len() && in_range(r[k], v);
                assert(in_range(out[0], v));
            }
        } else {
            assert(p.last() == r[r.len() - 2]);
            assert(prev.last().1 < x.0);
            assert forall|k: int| 0 <= k < n implies prev[k].1 <= prev.last().1 by {
                if k < n - 1 {
                    assert(prev[k].1 + gap < prev[n - 1].0);
                }
            }
            assert forall|v: int| covered(r, v) implies covered(out, v) by {
                let k = choose|k: int| 0 <= k < r.len() && in_range(r[k], v);
                if k < r.len() - 1 {
                    assert(in_range(p[k], v));
                    assert(covered(p, v));
                    let j = choose|j: int| 0 <= j < prev.len() && in_range(prev[j], v);
                    assert(in_range(out[j], v));
                } else if prev.last().1 + gap >= x.0 {
                    assert(in_range(out[n - 1], v));
                } else {
                    assert(in_range(out[n as int], v));
                }
            }
        }
    }
}

/// Joining leaves ranges that already lie more than `gap` apart unchanged:
/// with a gap of one, the runs of the contiguity pass come out as they went in.
pub proof fn lemma_join_keeps_separated(r: Seq<(i64, i64)>, gap: int)
    requires
        separated(r, gap),
    ensures
        joined(r, gap) == r,
    decreases r.len(),
{
    if r.len() > 0 {
        let p = r.drop_last();
        lemma_join_keeps_separated(p, gap);
        if p.len() > 0 {
            assert(p.last() == r[r.len() - 2]);
        }
        assert(p.push(r.last()) =~= r);
    }
}

/// With a join gap of one nothing merges beyond strict contiguity: joining
/// the runs of strictly ascending input gives the runs back.
pub proof fn lemma_unit_gap_keeps_runs(s: Seq<i64>)
    requires
        strictly_ascending(s),
    ensures
        joined(runs(s), 1) == runs(s),
{
    lemma_runs_partition(s);
    lemma_join_keeps_separated(runs(s), 1);
}

/// For strictly ascending input, the repair ranges cover every input value,
/// begin at the first and end at the last, and lie more than `JOIN_GAP`
/// apart from each other.
pub proof fn lemma_seq_ranges_cover(s: Seq<i64>)
    requires
        strictly_ascending(s),
    ensures
        separated(seq_ranges(s), JOIN_GAP as int),
        forall|v: int| holds(s, v) ==> covered(seq_ranges(s), v),
        s.len() == 0 <==> seq_ranges(s).len() == 0,
        s.len() > 0 ==> seq_ranges(s)[0].0 == s[0] && seq_ranges(s).last().1 == s.last(),
{
    lemma_runs_partition(s);
    lemma_runs_shape(s);
    let r = runs(s);
    lemma_joined_shape(r, JOIN_GAP as int);
}

} // verus!
