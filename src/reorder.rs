use vstd::prelude::*;
use std::collections::HashMap;

verus! {

broadcast use vstd::std_specs::hash::group_hash_axioms;

/// Whether `m` holds, after the `out.len()` entries from `next` on were taken
/// out of it in order, exactly `rest`; and whether taking stopped at the first
/// id after `next` that `m` does not hold, `new_next`.
pub open spec fn drained_from<T>(
    m: Map<usize, T>,
    next: usize,
    new_next: usize,
    out: Seq<(usize, T)>,
    rest: Map<usize, T>,
) -> bool {
    &&& next <= new_next
    &&& out.len() == new_next - next
    &&& forall|i: int|
        0 <= i < out.len() ==> {
            &&& (#[trigger] out[i]).0 == next + i
            &&& m.contains_key(out[i].0)
            &&& out[i].1 == m[out[i].0]
        }
    &&& !m.contains_key(new_next)
    &&& forall|k: usize|
        #[trigger] rest.contains_key(k) <==> (m.contains_key(k) && !(next <= k < new_next))
    &&& forall|k: usize| #[trigger] rest.contains_key(k) ==> rest[k] == m[k]
}

/// Restores the order of results that complete out of order. Each result
/// carries the position of its input in the stream as issued; a result is
/// handed out once all results of earlier positions have been.
pub struct ReorderBuffer<T> {
    next_id: usize,
    max_id: usize,
    pending: HashMap<usize, T>,
}

impl<T> ReorderBuffer<T> {
    /// The position of the result that is handed out next.
    pub closed spec fn next(&self) -> usize {
        self.next_id
    }

    /// The results held back, by position.
    pub closed spec fn held(&self) -> Map<usize, T> {
        self.pending@
    }

    pub closed spec fn wf(&self) -> bool {
        &&& self.max_id < usize::MAX
        &&& forall|k: usize| #[trigger]
            self.pending@.contains_key(k) ==> self.next_id <= k <= self.max_id
        &&& !self.pending@.contains_key(self.next_id)
    }

    /// An empty buffer that waits for position 0.
    pub fn new() -> (r: Self)
        ensures
            r.wf(),
            r.next() == 0,
            r.held() == Map::<usize, T>::empty(),
    {
        ReorderBuffer { next_id: 0, max_id: 0, pending: HashMap::new() }
    }

    /// The position of the result that is handed out next.
    pub fn next_position(&self) -> (r: usize)
        ensures
            r == self.next(),
    {
        self.next_id
    }

    /// Whether no result is held back.
    pub fn is_empty(&self) -> (r: bool)
        requires
            self.wf(),
        ensures
            r == (self.held().len() == 0),
    {
        self.pending.is_empty()
    }

    /// Takes the result of position `id` and hands out, in order, every
    /// result that is now next in line.
    pub fn push(&mut self, id: usize, payload: T) -> (out: Vec<(usize, T)>)
        requires
            old(self).wf(),
            old(self).next() <= id < usize::MAX,
        ensures
            final(self).wf(),
            drained_from(
                old(self).held().insert(id, payload),
                old(self).next(),
                final(self).next(),
                out@,
                final(self).held(),
            ),
    {
        let ghost m = self.pending@.insert(id, payload);
        let ghost first = self.next_id;
        self.pending.insert(id, payload);
        if id > self.max_id {
            self.max_id = id;
        }
        let mut out: Vec<(usize, T)> = Vec::new();
        while self.pending.contains_key(&self.next_id)
            invariant
                first <= self.next_id,
                self.max_id < usize::MAX,
                forall|k: usize| #[trigger]
                    self.pending@.contains_key(k) ==> self.next_id <= k <= self.max_id,
                forall|k: usize| #[trigger]
                    m.contains_key(k) ==> first <= k <= self.max_id,
                out.len() == self.next_id - first,
                forall|i: int|
                    0 <= i < out.len() ==> {
                        &&& (#[trigger] out@[i]).0 == first + i
                        &&& m.contains_key(out@[i].0)
                        &&& out@[i].1 == m[out@[i].0]
                    },
                forall|k: usize| #[trigger]
                    self.pending@.contains_key(k) <==> (m.contains_key(k) && !(first <= k
                        < self.next_id)),
                forall|k: usize| #[trigger] self.pending@.contains_key(k) ==> self.pending@[k] == m[k],
            decreases self.max_id + 1 - self.next_id,
        {
            let k = self.next_id;
            let v = self.pending.remove(&k).unwrap();
            out.push((k, v));
            self.next_id = k + 1;
        }
        out
    }

    /// Hands out every result still held back, by ascending position. This is
    /// for a stream that ended while some position never arrived.
    pub fn finish(self) -> (out: Vec<(usize, T)>)
        requires
            self.wf(),
        ensures
            forall|i: int, j: int| 0 <= i < j < out.len() ==> out@[i].0 < out@[j].0,
            forall|i: int|
                0 <= i < out.len() ==> self.held().contains_key(#[trigger] out@[i].0)
                    && out@[i].1 == self.held()[out@[i].0],
            forall|k: usize| #[trigger]
                self.held().contains_key(k) ==> exists|i: int|
                    0 <= i < out.len() && #[trigger] out@[i].0 == k,
    {
        let ghost m = self.pending@;
        let max_id = self.max_id;
        let mut pending = self.pending;
        let mut out: Vec<(usize, T)> = Vec::new();
        let mut k: usize = self.next_id;
        while k <= max_id
            invariant
                max_id < usize::MAX,
                forall|j: usize| #[trigger] m.contains_key(j) ==> j <= max_id,
                forall|j: usize| #[trigger]
                    pending@.contains_key(j) <==> (m.contains_key(j) && k <= j),
                forall|j: usize| #[trigger] pending@.contains_key(j) ==> pending@[j] == m[j],
                forall|i: int, j: int| 0 <= i < j < out.len() ==> out@[i].0 < out@[j].0,
                forall|i: int| 0 <= i < out.len() ==> (#[trigger] out@[i]).0 < k,
                forall|i: int|
                    0 <= i < out.len() ==> m.contains_key(#[trigger] out@[i].0) && out@[i].1
                        == m[out@[i].0],
                forall|j: usize| #[trigger]
                    m.contains_key(j) && j < k ==> exists|i: int|
                        0 <= i < out.len() && #[trigger] out@[i].0 == j,
            decreases max_id + 1 - k,
        {
            let ghost before = out@;
            if let Some(v) = pending.remove(&k) {
                out.push((k, v));
                assert(out@[out.len() - 1].0 == k);
            }
            assert forall|j: usize| #[trigger]
                m.contains_key(j) && j < k + 1 implies exists|i: int|
                    0 <= i < out.len() && #[trigger] out@[i].0 == j by {
                if j == k {
                    assert(out@[out.len() - 1].0 == k);
                } else {
                    let i = choose|i: int| 0 <= i < before.len() && #[trigger] before[i].0 == j;
                    assert(out@[i] == before[i]);
                }
            }
            k = k + 1;
        }
        out
    }
}

/// Hands out the positions of a stream's items in the order they are
/// claimed, so that results computed out of order can be put back in order.
pub struct Sequencer {
    next_id: usize,
}

impl Sequencer {
    /// How many positions were handed out.
    pub closed spec fn issued(&self) -> usize {
        self.next_id
    }

    /// A sequencer that hands out position 0 first.
    pub fn new() -> (r: Self)
        ensures
            r.issued() == 0,
    {
        Sequencer { next_id: 0 }
    }

    /// Tags `item` with the next position.
    pub fn claim<T>(&mut self, item: T) -> (r: (usize, T))
        requires
            old(self).issued() < usize::MAX,
        ensures
            r == (old(self).issued(), item),
            final(self).issued() == old(self).issued() + 1,
    {
        let id = self.next_id;
        self.next_id = id + 1;
        (id, item)
    }
}

/// All that a run of `push` calls handed out, in the order handed out.
pub open spec fn emitted<T>(outs: Seq<Seq<(usize, T)>>) -> Seq<(usize, T)>
    decreases outs.len(),
{
    if outs.len() == 0 {
        seq![]
    } else {
        emitted(outs.drop_last()) + outs.last()
    }
}

/// Whether one of the first `i` positions pushed is `k`.
pub open spec fn issued(ids: Seq<usize>, i: int, k: usize) -> bool {
    exists|t: int| 0 <= t < i && ids[t] == k
}

/// What holds after the first `i` pushes of a run.
spec fn run_state<T>(
    ids: Seq<usize>,
    payloads: Seq<T>,
    nexts: Seq<usize>,
    helds: Seq<Map<usize, T>>,
    outs: Seq<Seq<(usize, T)>>,
    i: int,
) -> bool {
    let e = emitted(outs.take(i));
    let n = nexts[i];
    &&& e.len() == n
    &&& forall|j: int| 0 <= j < n ==> (#[trigger] e[j]).0 == j
    &&& forall|j: usize| j < n ==> #[trigger] issued(ids, i, j)
    &&& forall|t: int| 0 <= t < i && ids[t] < n ==> (#[trigger] e[ids[t] as int]).1 == payloads[t]
    &&& forall|k: usize| #[trigger] helds[i].contains_key(k) <==> (issued(ids, i, k) && k >= n)
    &&& forall|t: int|
        0 <= t < i && helds[i].contains_key(#[trigger] ids[t]) ==> helds[i][ids[t]] == payloads[t]
}

proof fn lemma_run_prefix<T>(
    ids: Seq<usize>,
    payloads: Seq<T>,
    nexts: Seq<usize>,
    helds: Seq<Map<usize, T>>,
    outs: Seq<Seq<(usize, T)>>,
    i: int,
)
    requires
        ids.no_duplicates(),
        payloads.len() == ids.len(),
        outs.len() == ids.len(),
        nexts.len() == ids.len() + 1,
        helds.len() == ids.len() + 1,
        nexts[0] == 0,
        helds[0] == Map::<usize, T>::empty(),
        forall|s: int|
            0 <= s < ids.len() ==> drained_from(
                #[trigger] helds[s].insert(ids[s], payloads[s]),
                nexts[s],
                nexts[s + 1],
                outs[s],
                helds[s + 1],
            ),
        0 <= i <= ids.len(),
    ensures
        run_state(ids, payloads, nexts, helds, outs, i),
    decreases i,
{
    if i == 0 {
        assert(outs.take(0) =~= seq![]);
        assert(emitted(outs.take(0)) =~= seq![]);
    } else {
        let s = i - 1;
        lemma_run_prefix(ids, payloads, nexts, helds, outs, s);
        let id = ids[s];
        let p = payloads[s];
        let m = helds[s].insert(id, p);
        let n = nexts[s];
        let n2 = nexts[i];
        let out = outs[s];
        let e = emitted(outs.take(s));
        assert(outs.take(i).drop_last() =~= outs.take(s));
        assert(outs.take(i).last() == out);
        let e2 = emitted(outs.take(i));
        assert(e2 == e + out);
        assert(drained_from(m, n, n2, out, helds[i]));
        assert(id >= n) by {
            if id < n {
                assert(issued(ids, s, id));
                let t = choose|t: int| 0 <= t < s && ids[t] == id;
                assert(ids[t] == ids[s]);
            }
        }
        assert forall|j: int| 0 <= j < n2 implies (#[trigger] e2[j]).0 == j by {
            if j >= n {
                assert(e2[j] == out[j - n]);
            }
        }
        assert forall|j: usize| j < n2 implies #[trigger] issued(ids, i, j) by {
            if j < n {
                assert(issued(ids, s, j));
                let t = choose|t: int| 0 <= t < s && ids[t] == j;
                assert(0 <= t < i && ids[t] == j);
            } else {
                assert(e2[j as int] == out[j - n]);
                assert(out[j - n].0 == j);
                if j == id {
                    assert(ids[s] == j);
                } else {
                    assert(helds[s].contains_key(j));
                    assert(issued(ids, s, j));
                    let t = choose|t: int| 0 <= t < s && ids[t] == j;
                    assert(0 <= t < i && ids[t] == j);
                }
            }
        }
        assert forall|t: int| 0 <= t < i && ids[t] < n2 implies (#[trigger] e2[ids[t] as int]).1
            == payloads[t] by {
            let k = ids[t];
            if t < s {
                assert(ids[t] != ids[s]);
            }
            if k < n {
                assert(e2[k as int] == e[k as int]);
            } else {
                assert(e2[k as int] == out[k - n]);
                assert(out[k - n].0 == k);
                if t < s {
                    assert(issued(ids, s, k));
                    assert(helds[s].contains_key(k));
                }
            }
        }
        assert forall|k: usize| #[trigger] helds[i].contains_key(k) <==> (issued(ids, i, k) && k
            >= n2) by {
            if issued(ids, i, k) {
                let t = choose|t: int| 0 <= t < i && ids[t] == k;
                if t < s {
                    assert(issued(ids, s, k));
                }
            }
            if issued(ids, s, k) {
                let t = choose|t: int| 0 <= t < s && ids[t] == k;
                assert(0 <= t < i && ids[t] == k);
            }
            if k == id {
                assert(ids[s] == k);
            }
        }
        assert forall|t: int| 0 <= t < i && helds[i].contains_key(#[trigger] ids[t]) implies helds[i][ids[t]]
            == payloads[t] by {
            if t < s {
                assert(ids[t] != ids[s]);
                assert(issued(ids, s, ids[t]));
            }
        }
    }
}

/// Results of the positions `0..n` pushed one by one in any order come out
/// in ascending position order, each with its own payload, and the buffer
/// ends empty. Step `s` of the run pushes position `ids[s]` with
/// `payloads[s]` into a buffer waiting for `nexts[s]` and holding `helds[s]`,
/// which hands out `outs[s]`.
pub proof fn lemma_any_arrival_order<T>(
    ids: Seq<usize>,
    payloads: Seq<T>,
    nexts: Seq<usize>,
    helds: Seq<Map<usize, T>>,
    outs: Seq<Seq<(usize, T)>>,
)
    requires
        ids.no_duplicates(),
        forall|j: usize| (j as int) < ids.len() <==> ids.contains(j),
        payloads.len() == ids.len(),
        outs.len() == ids.len(),
        nexts.len() == ids.len() + 1,
        helds.len() == ids.len() + 1,
        nexts[0] == 0,
        helds[0] == Map::<usize, T>::empty(),
        forall|s: int|
            0 <= s < ids.len() ==> drained_from(
                #[trigger] helds[s].insert(ids[s], payloads[s]),
                nexts[s],
                nexts[s + 1],
                outs[s],
                helds[s + 1],
            ),
    ensures
        emitted(outs).len() == ids.len(),
        forall|j: int| 0 <= j < ids.len() ==> (#[trigger] emitted(outs)[j]).0 == j,
        forall|t: int| 0 <= t < ids.len() ==> (#[trigger] emitted(outs)[ids[t] as int]).1 == payloads[t],
        helds.last().len() == 0,
        forall|k: usize| !(#[trigger] helds.last().contains_key(k)),
{
    let len = ids.len() as int;
    lemma_run_prefix(ids, payloads, nexts, helds, outs, len);
    assert(outs.take(len) =~= outs);
    let n = nexts[len];
    if n > len {
        assert(issued(ids, len, (n - 1) as usize));
        let t = choose|t: int| 0 <= t < len && ids[t] == (n - 1) as usize;
        assert(ids.contains(ids[t]));
    }
    if n < len {
        assert(ids.contains(n));
        let t = choose|t: int| 0 <= t < len && ids[t] == n;
        assert(issued(ids, len, n));
        assert(helds[len].contains_key(n));
        assert(drained_from(
            helds[len - 1].insert(ids[len - 1], payloads[len - 1]),
            nexts[len - 1],
            nexts[len],
            outs[len - 1],
            helds[len],
        ));
    }
    assert forall|k: usize| !helds.last().contains_key(k) by {
        if helds.last().contains_key(k) {
            assert(issued(ids, len, k));
            let t = choose|t: int| 0 <= t < len && ids[t] == k;
            assert(ids.contains(k));
        }
    }
    assert(helds.last().dom() =~= Set::<usize>::empty());
    assert forall|t: int| 0 <= t < len implies (#[trigger] emitted(outs)[ids[t] as int]).1
        == payloads[t] by {
        assert(ids.contains(ids[t]));
    }
}

/// Whether `ids` holds each of the positions `0..ids.len()` exactly once.
pub open spec fn is_position_permutation(ids: Seq<usize>) -> bool {
    &&& ids.no_duplicates()
    &&& forall|j: usize| (j as int) < ids.len() <==> ids.contains(j)
}

/// The positions of tagged results.
pub open spec fn positions<T>(tagged: Seq<(usize, T)>) -> Seq<usize> {
    tagged.map_values(|a: (usize, T)| a.0)
}

/// Runs results through a `ReorderBuffer` in the order they arrive, and
/// returns them in the order the buffer hands them out, the results held
/// back when the arrivals end coming last. An arrival whose position was
/// handed out already is dropped. Where the arrivals carry each position of
/// `0..n` once, in any order, they come out by ascending position.
pub fn reorder_arrivals<T>(arrivals: Vec<(usize, T)>) -> (r: Vec<(usize, T)>)
    ensures
        is_position_permutation(positions(arrivals@)) ==> {
            &&& r@.len() == arrivals@.len()
            &&& forall|j: int| 0 <= j < r@.len() ==> (#[trigger] r@[j]).0 == j
            &&& forall|t: int|
                0 <= t < arrivals@.len() ==> r@[(#[trigger] arrivals@[t]).0 as int] == arrivals@[t]
        },
{
    let ghost all = arrivals@;
    let mut rest = arrivals;
    let mut pending: Vec<(usize, T)> = Vec::new();
    let n: usize = rest.len();
    assert(all.len() == n as int);
    while rest.len() > 0
        invariant
            all.len() <= usize::MAX,
            pending@.len() + rest@.len() == all.len(),
            rest@ == all.subrange(0, rest@.len() as int),
            forall|k: int|
                0 <= k < pending@.len() ==> #[trigger] pending@[k] == all[all.len() - 1 - k],
        decreases rest.len(),
    {
        let a = rest.pop().unwrap();
        pending.push(a);
    }
    let mut buf: ReorderBuffer<T> = ReorderBuffer::new();
    let mut out: Vec<(usize, T)> = Vec::new();
    let ghost mut ids: Seq<usize> = seq![];
    let ghost mut payloads: Seq<T> = seq![];
    let ghost mut nexts: Seq<usize> = seq![0usize];
    let ghost mut helds: Seq<Map<usize, T>> = seq![Map::<usize, T>::empty()];
    let ghost mut outs: Seq<Seq<(usize, T)>> = seq![];
    let ghost mut clean: bool = true;
    let ghost perm = is_position_permutation(positions(all));
    while pending.len() > 0
        invariant
            buf.wf(),
            all.len() <= usize::MAX,
            pending@.len() <= all.len(),
            forall|k: int|
                0 <= k < pending@.len() ==> #[trigger] pending@[k] == all[all.len() - 1 - k],
            perm == is_position_permutation(positions(all)),
            perm ==> clean,
            clean ==> {
                let i = all.len() - pending@.len();
                &&& ids == positions(all).take(i)
                &&& payloads == all.take(i).map_values(|a: (usize, T)| a.1)
                &&& nexts.len() == i + 1
                &&& helds.len() == i + 1
                &&& outs.len() == i
                &&& nexts[0] == 0
                &&& helds[0] == Map::<usize, T>::empty()
                &&& forall|s: int|
                    0 <= s < i ==> drained_from(
                        #[trigger] helds[s].insert(ids[s], payloads[s]),
                        nexts[s],
                        nexts[s + 1],
                        outs[s],
                        helds[s + 1],
                    )
                &&& nexts[i] == buf.next()
                &&& helds[i] == buf.held()
                &&& out@ == emitted(outs)
            },
        decreases pending.len(),
    {
        let ghost i = all.len() - pending@.len();
        let (id, payload) = pending.pop().unwrap();
        assert((id, payload) == all[i]);
        if id < buf.next_position() || id == usize::MAX {
            proof {
                if perm {
                    assert(positions(all)[i] == id);
                    assert(ids.no_duplicates()) by {
                        assert forall|a: int, b: int| 0 <= a < b < ids.len() implies ids[a] != ids[b] by {
                            assert(ids[a] == positions(all)[a] && ids[b] == positions(all)[b]);
                        }
                    }
                    assert(payloads.len() == ids.len());
                    lemma_run_prefix(ids, payloads, nexts, helds, outs, i);
                    if id < buf.next() {
                        assert(issued(ids, i, id));
                        let t = choose|t: int| 0 <= t < i && ids[t] == id;
                        assert(positions(all)[t] == positions(all)[i]);
                    } else {
                        assert(positions(all)[i] == id);
                        assert(positions(all).contains(id));
                    }
                    assert(false);
                }
                clean = false;
            }
        } else {
            let ghost old_outs = outs;
            let ghost old_out = out@;
            let emitted_now = buf.push(id, payload);
            proof {
                if clean {
                    ids = ids.push(id);
                    payloads = payloads.push(payload);
                    nexts = nexts.push(buf.next());
                    helds = helds.push(buf.held());
                    outs = outs.push(emitted_now@);
                    assert(positions(all).take(i + 1) =~= positions(all).take(i).push(id));
                    assert(all.take(i + 1).map_values(|a: (usize, T)| a.1) =~= all.take(i).map_values(
                        |a: (usize, T)| a.1,
                    ).push(payload));
                    assert forall|s: int|
                        0 <= s < i + 1 implies drained_from(
                        #[trigger] helds[s].insert(ids[s], payloads[s]),
                        nexts[s],
                        nexts[s + 1],
                        outs[s],
                        helds[s + 1],
                    ) by {}
                    assert(outs.drop_last() =~= old_outs);
                    assert(emitted(outs) == emitted(old_outs) + emitted_now@);
                }
            }
            let mut e = emitted_now;
            out.append(&mut e);
            assert(clean ==> out@ == emitted(outs)) by {
                if clean {
                    assert(out@ =~= old_out + emitted_now@);
                }
            }
        }
    }
    let ghost held_at_end = buf.held();
    let mut rest_out = buf.finish();
    proof {
        if perm {
            assert(ids =~= positions(all));
            assert(payloads.len() == ids.len());
            lemma_any_arrival_order(ids, payloads, nexts, helds, outs);
            assert(held_at_end == helds.last());
            if rest_out@.len() > 0 {
                assert(held_at_end.contains_key(rest_out@[0].0));
            }
            assert forall|t: int| 0 <= t < all.len() implies out@[(#[trigger] all[t]).0 as int] == all[t] by {
                assert(ids[t] == all[t].0);
                assert(payloads[t] == all[t].1);
                let k = ids[t] as int;
                assert(ids.contains(ids[t]));
                assert(k < ids.len());
                assert(emitted(outs)[k].0 == k);
                assert(emitted(outs)[k].1 == payloads[t]);
            }
        }
    }
    out.append(&mut rest_out);
    out
}

} // verus!
