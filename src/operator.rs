//! The decisions of the per-key state-machine operator: which records are folded now, which
//! wait for their time to close, and the fold of each record exactly once.
use crate::frontier::{antichain_elements, antichain_less_equal, antichain_less_than, some_at_most, some_below};
use crate::state::{fold_step, StateStore};
use timely::progress::frontier::Antichain;
use vstd::prelude::*;

verus! {

/// A routed record: its target worker, its bin, and the key with its value.
pub type Record<V> = (usize, usize, (u64, V));

/// A time has closed under a frontier once no element of the frontier is at most it.
pub open spec fn closed(frontier: Seq<u64>, t: u64) -> bool {
    !some_at_most(frontier, t)
}

/// Buffered records, by strictly increasing time.
pub open spec fn sorted_times<V>(p: Seq<(u64, Seq<Record<V>>)>) -> bool {
    forall|i: int, j: int| 0 <= i < j < p.len() ==> (#[trigger] p[i]).0 < (#[trigger] p[j]).0
}

/// The buffer after `data` arrived at `time`: appended to the records of that time, or a new
/// entry in time order.
pub open spec fn stash_spec<V>(p: Seq<(u64, Seq<Record<V>>)>, time: u64, data: Seq<Record<V>>) -> Seq<
    (u64, Seq<Record<V>>),
>
    decreases p.len(),
{
    if p.len() == 0 {
        seq![(time, data)]
    } else if p[0].0 == time {
        p.update(0, (time, p[0].1 + data))
    } else if p[0].0 > time {
        seq![(time, data)] + p
    } else {
        seq![p[0]] + stash_spec(p.drop_first(), time, data)
    }
}

/// All the records of a list of batches, in order.
pub open spec fn concat<A>(s: Seq<Seq<A>>) -> Seq<A>
    decreases s.len(),
{
    if s.len() == 0 {
        Seq::empty()
    } else {
        concat(s.drop_last()) + s.last()
    }
}

/// The records `recs` were folded one after another, each exactly once, taking the bins from
/// `before` to `after` and producing `out`.
pub open spec fn folds_in_order<D, V, R, F: Fn(u64, V, D) -> (bool, D, Vec<R>)>(
    fold: F,
    before: Seq<Map<u64, D>>,
    recs: Seq<Record<V>>,
    after: Seq<Map<u64, D>>,
    out: Seq<R>,
) -> bool {
    exists|trace: Seq<Seq<Map<u64, D>>>, outs: Seq<Seq<R>>|
        {
            &&& trace.len() == recs.len() + 1
            &&& outs.len() == recs.len()
            &&& trace[0] == before
            &&& trace[recs.len() as int] == after
            &&& forall|i: int|
                0 <= i < recs.len() ==> fold_step(
                    fold,
                    #[trigger] trace[i],
                    recs[i].1,
                    recs[i].2.0,
                    recs[i].2.1,
                    trace[i + 1],
                    outs[i],
                )
            &&& out == concat(outs)
        }
}

/// The state-machine operator of one worker: the state of the bins it owns, and the records
/// that wait for their time to close.
pub struct StateMachine<V, D> {
    pub pending: Vec<(u64, Vec<Record<V>>)>,
    pub states: StateStore<D>,
}

impl<V, D> StateMachine<V, D> {
    /// The buffered records, by time.
    pub open spec fn pending_view(&self) -> Seq<(u64, Seq<Record<V>>)> {
        self.pending@.map_values(|e: (u64, Vec<Record<V>>)| (e.0, e.1@))
    }

    /// The buffer is in time order.
    pub open spec fn wf(&self) -> bool {
        sorted_times(self.pending_view())
    }

    /// An operator with `num_bins` empty bins and nothing buffered.
    pub fn new(num_bins: usize) -> (r: Self)
        ensures
            r.wf(),
            r.pending_view() == Seq::<(u64, Seq<Record<V>>)>::empty(),
            r.states@.len() == num_bins,
            forall|i: int| 0 <= i < num_bins ==> #[trigger] r.states@[i] == Map::<u64, D>::empty(),
    {
        let r = StateMachine { pending: Vec::new(), states: StateStore::new(num_bins) };
        proof {
            assert(r.pending_view() =~= Seq::<(u64, Seq<Record<V>>)>::empty());
        }
        r
    }

    /// Buffers `data` at `time`, keeping the buffer in time order.
    fn stash(&mut self, time: u64, data: Vec<Record<V>>)
        requires
            old(self).wf(),
        ensures
            final(self).wf(),
            final(self).pending_view() == stash_spec(old(self).pending_view(), time, data@),
            final(self).states == old(self).states,
    {
        let ghost pv = self.pending_view();
        let mut i: usize = 0;
        while i < self.pending.len() && self.pending[i].0 < time
            invariant
                i <= self.pending.len(),
                pv == self.pending_view(),
                forall|j: int| 0 <= j < i ==> (#[trigger] pv[j]).0 < time,
            decreases self.pending.len() - i,
        {
            i = i + 1;
        }
        proof {
            lemma_stash_skip(pv, time, data@, i as int);
            lemma_stash_sorted(pv, time, data@);
        }
        if i < self.pending.len() && self.pending[i].0 == time {
            let ghost d = data@;
            let (t, mut recs) = self.pending.remove(i);
            let mut more = data;
            recs.append(&mut more);
            self.pending.insert(i, (t, recs));
            proof {
                assert(pv.skip(i as int)[0] == pv[i as int]);
                assert(self.pending_view() =~= pv.take(i as int) + pv.skip(i as int).update(
                    0,
                    (time, pv[i as int].1 + d),
                ));
            }
        } else {
            proof {
                if i < pv.len() {
                    assert(pv.skip(i as int)[0] == pv[i as int]);
                }
            }
            self.pending.insert(i, (time, data));
            proof {
                assert(self.pending_view() =~= pv.take(i as int) + (seq![(time, data@)] + pv.skip(
                    i as int,
                )));
                if i == pv.len() {
                    assert(pv.skip(i as int) =~= Seq::<(u64, Seq<Record<V>>)>::empty());
                    assert(seq![(time, data@)] + pv.skip(i as int) =~= seq![(time, data@)]);
                }
            }
        }
    }

    /// Takes in records that arrived at `time`. Where some element of the frontier is strictly
    /// below `time`, the time may still receive records, so they are buffered and `None` comes
    /// back; otherwise they are handed back to be folded now.
    pub fn accept(&mut self, frontier: &Antichain<u64>, time: u64, data: Vec<Record<V>>) -> (r:
        Option<Vec<Record<V>>>)
        requires
            old(self).wf(),
        ensures
            final(self).wf(),
            final(self).states == old(self).states,
            some_below(antichain_elements(*frontier), time) ==> r is None
                && final(self).pending_view() == stash_spec(old(self).pending_view(), time, data@),
            !some_below(antichain_elements(*frontier), time) ==> r == Some(data)
                && final(self).pending_view() == old(self).pending_view(),
    {
        if antichain_less_than(frontier, time) {
            self.stash(time, data);
            None
        } else {
            Some(data)
        }
    }

    /// Removes from the buffer, in time order, the times that have closed under `frontier`, and
    /// hands them out with their records. What comes out followed by what stays is the buffer
    /// as it was: no record is lost or handed out twice.
    pub fn release(&mut self, frontier: &Antichain<u64>) -> (r: Vec<(u64, Vec<Record<V>>)>)
        requires
            old(self).wf(),
        ensures
            final(self).wf(),
            final(self).states == old(self).states,
            r@.map_values(|e: (u64, Vec<Record<V>>)| (e.0, e.1@)) + final(self).pending_view()
                == old(self).pending_view(),
            forall|i: int|
                0 <= i < r@.len() ==> closed(antichain_elements(*frontier), (#[trigger] r@[i]).0),
            forall|i: int|
                0 <= i < final(self).pending_view().len() ==> !closed(
                    antichain_elements(*frontier),
                    (#[trigger] final(self).pending_view()[i]).0,
                ),
    {
        let ghost pv = self.pending_view();
        let ghost f = antichain_elements(*frontier);
        let mut out: Vec<(u64, Vec<Record<V>>)> = Vec::new();
        while self.pending.len() > 0 && !antichain_less_equal(frontier, self.pending[0].0)
            invariant
                self.wf(),
                self.states == old(self).states,
                f == antichain_elements(*frontier),
                out@.map_values(|e: (u64, Vec<Record<V>>)| (e.0, e.1@)) + self.pending_view()
                    == pv,
                forall|i: int| 0 <= i < out@.len() ==> closed(f, (#[trigger] out@[i]).0),
            decreases self.pending.len(),
        {
            let ghost before = self.pending_view();
            let ghost out_before = out@.map_values(|e: (u64, Vec<Record<V>>)| (e.0, e.1@));
            let e = self.pending.remove(0);
            out.push(e);
            proof {
                assert(self.pending_view() =~= before.drop_first());
                assert(out@.map_values(|e: (u64, Vec<Record<V>>)| (e.0, e.1@)) =~= out_before.push(
                    before[0],
                ));
                assert(out_before.push(before[0]) + before.drop_first() =~= out_before + before);
                assert forall|i: int, j: int|
                    0 <= i < j < self.pending_view().len() implies (
                    #[trigger] self.pending_view()[i]).0 < (
                    #[trigger] self.pending_view()[j]).0 by {
                    assert(self.pending_view()[i] == before[i + 1]);
                    assert(self.pending_view()[j] == before[j + 1]);
                }
            }
        }
        proof {
            let rest = self.pending_view();
            if rest.len() > 0 {
                assert(some_at_most(f, rest[0].0));
                let w = choose|k: int| 0 <= k < f.len() && f[k] <= rest[0].0;
                assert forall|i: int| 0 <= i < rest.len() implies !closed(
                    f,
                    (#[trigger] rest[i]).0,
                ) by {
                    if i > 0 {
                        assert(rest[0].0 < rest[i].0);
                    }
                    assert(f[w] <= rest[i].0);
                }
            }
        }
        out
    }

    /// Folds each record once, in order, into the state of its key; returns what the folds
    /// produced, in order.
    pub fn process<R, F>(&mut self, data: Vec<Record<V>>, fold: &F) -> (r: Vec<R>)
        where
            D: Default,
            F: Fn(u64, V, D) -> (bool, D, Vec<R>),
        requires
            forall|j: int| 0 <= j < data@.len() ==> (#[trigger] data@[j]).1 < old(self).states@.len(),
            forall|k: u64, v: V, s: D| fold.requires((k, v, s)),
        ensures
            folds_in_order(*fold, old(self).states@, data@, final(self).states@, r@),
            final(self).pending == old(self).pending,
    {
        let ghost recs = data@;
        let n = data.len();
        let mut data = data;
        let mut rev: Vec<Record<V>> = Vec::new();
        while data.len() > 0
            invariant
                data@.len() + rev@.len() == n,
                n == recs.len(),
                forall|j: int| 0 <= j < data@.len() ==> data@[j] == recs[j],
                forall|j: int| 0 <= j < rev@.len() ==> rev@[j] == recs[n - 1 - j],
            decreases data@.len(),
        {
            let e = data.pop().unwrap();
            rev.push(e);
        }
        let mut out: Vec<R> = Vec::new();
        let ghost mut trace: Seq<Seq<Map<u64, D>>> = seq![self.states@];
        let ghost mut outs: Seq<Seq<R>> = Seq::empty();
        let mut i: usize = 0;
        while i < n
            invariant
                i <= n,
                n == recs.len(),
                rev@.len() == n - i,
                forall|j: int| 0 <= j < rev@.len() ==> rev@[j] == recs[n - 1 - j],
                forall|j: int| 0 <= j < n ==> (#[trigger] recs[j]).1 < self.states@.len(),
                forall|k: u64, v: V, s: D| fold.requires((k, v, s)),
                self.pending == old(self).pending,
                self.states@.len() == old(self).states@.len(),
                trace.len() == i + 1,
                outs.len() == i,
                trace[0] == old(self).states@,
                trace[i as int] == self.states@,
                forall|j: int|
                    0 <= j < i ==> fold_step(
                        *fold,
                        #[trigger] trace[j],
                        recs[j].1,
                        recs[j].2.0,
                        recs[j].2.1,
                        trace[j + 1],
                        outs[j],
                    ),
                out@ == concat(outs),
            decreases n - i,
        {
            let rec = rev.pop().unwrap();
            let (_target, bin, (key, val)) = rec;
            let mut produced = self.states.fold_record(bin, key, val, fold);
            let ghost p = produced@;
            out.append(&mut produced);
            proof {
                let prev_trace = trace;
                let prev_outs = outs;
                trace = trace.push(self.states@);
                outs = outs.push(p);
                assert(outs.drop_last() =~= prev_outs);
                assert forall|j: int|
                    0 <= j < i + 1 implies fold_step(
                    *fold,
                    #[trigger] trace[j],
                    recs[j].1,
                    recs[j].2.0,
                    recs[j].2.1,
                    trace[j + 1],
                    outs[j],
                ) by {
                    if j < i {
                        assert(trace[j] == prev_trace[j]);
                        assert(trace[j + 1] == prev_trace[j + 1]);
                        assert(outs[j] == prev_outs[j]);
                    }
                }
            }
            i = i + 1;
        }
        proof {
            assert(folds_in_order(*fold, old(self).states@, recs, self.states@, out@));
        }
        out
    }
}

/// The records buffered at time `u`, in buffer order.
pub open spec fn records_at<V>(p: Seq<(u64, Seq<Record<V>>)>, u: u64) -> Seq<Record<V>>
    decreases p.len(),
{
    if p.len() == 0 {
        Seq::empty()
    } else if p[0].0 == u {
        p[0].1 + records_at(p.drop_first(), u)
    } else {
        records_at(p.drop_first(), u)
    }
}

/// Buffering loses and repeats no record: at every time `u`, the records buffered after `data`
/// arrived at `time` are those buffered before, followed by `data` where `u` is `time`. With
/// `release`, which hands out a prefix of the buffer and keeps the rest, and `process`, which
/// folds each record it is given once, each record is folded exactly once, and a buffered one
/// only once its time has closed.
pub proof fn lemma_buffered_exactly_once<V>(
    p: Seq<(u64, Seq<Record<V>>)>,
    time: u64,
    data: Seq<Record<V>>,
    u: u64,
)
    requires
        sorted_times(p),
    ensures
        records_at(stash_spec(p, time, data), u) == if u == time {
            records_at(p, u) + data
        } else {
            records_at(p, u)
        },
    decreases p.len(),
{
    let r = stash_spec(p, time, data);
    if p.len() == 0 {
        assert(r[0] == (time, data));
        assert(r.drop_first() =~= Seq::<(u64, Seq<Record<V>>)>::empty());
        assert(records_at(r.drop_first(), u) == Seq::<Record<V>>::empty());
        assert(records_at(p, u) == Seq::<Record<V>>::empty());
        assert(data + Seq::<Record<V>>::empty() =~= data);
        assert(Seq::<Record<V>>::empty() + data =~= data);
    } else if p[0].0 == time {
        assert(r.drop_first() =~= p.drop_first());
        assert(r[0] == (time, p[0].1 + data));
        assert forall|i: int| 0 <= i < p.drop_first().len() implies (#[trigger] p.drop_first()[i]).0
            > time by {
            assert(p[0].0 < p[i + 1].0);
        }
        lemma_absent_time(p.drop_first(), time);
        if u == time {
            assert(records_at(p.drop_first(), u) =~= Seq::<Record<V>>::empty());
            assert(p[0].1 + data + Seq::<Record<V>>::empty() =~= p[0].1 + Seq::<Record<V>>::empty()
                + data);
        }
    } else if p[0].0 > time {
        assert(r.drop_first() =~= p);
        assert(r[0] == (time, data));
        assert forall|i: int| 0 <= i < p.len() implies (#[trigger] p[i]).0 > time by {
            if i > 0 {
                assert(p[0].0 < p[i].0);
            }
        }
        lemma_absent_time(p, time);
        if u == time {
            assert(records_at(p, u) =~= Seq::<Record<V>>::empty());
            assert(data + Seq::<Record<V>>::empty() =~= Seq::<Record<V>>::empty() + data);
        }
    } else {
        let rest = p.drop_first();
        assert(sorted_times(rest)) by {
            assert forall|i: int, j: int| 0 <= i < j < rest.len() implies (#[trigger] rest[i]).0 < (
            #[trigger] rest[j]).0 by {
                assert(p[i + 1].0 < p[j + 1].0);
            }
        }
        assert(r.drop_first() =~= stash_spec(rest, time, data));
        assert(r[0] == p[0]);
        lemma_buffered_exactly_once(rest, time, data, u);
        if u == time {
            assert(records_at(r, u) =~= records_at(p, u) + data);
        }
    }
}

/// A time below every buffered time, or above, has no records buffered.
proof fn lemma_absent_time<V>(p: Seq<(u64, Seq<Record<V>>)>, t: u64)
    requires
        sorted_times(p),
        forall|i: int| 0 <= i < p.len() ==> (#[trigger] p[i]).0 > t,
    ensures
        records_at(p, t) == Seq::<Record<V>>::empty(),
    decreases p.len(),
{
    if p.len() > 0 {
        let rest = p.drop_first();
        assert(sorted_times(rest)) by {
            assert forall|i: int, j: int| 0 <= i < j < rest.len() implies (#[trigger] rest[i]).0 < (
            #[trigger] rest[j]).0 by {
                assert(p[i + 1].0 < p[j + 1].0);
            }
        }
        assert forall|i: int| 0 <= i < rest.len() implies (#[trigger] rest[i]).0 > t by {
            assert(rest[i] == p[i + 1]);
        }
        lemma_absent_time(rest, t);
    }
}

/// Buffering at `time` passes over the entries of earlier times.
proof fn lemma_stash_skip<V>(p: Seq<(u64, Seq<Record<V>>)>, time: u64, data: Seq<Record<V>>, i: int)
    requires
        0 <= i <= p.len(),
        forall|j: int| 0 <= j < i ==> (#[trigger] p[j]).0 < time,
    ensures
        stash_spec(p, time, data) == p.take(i) + stash_spec(p.skip(i), time, data),
    decreases i,
{
    if i == 0 {
        assert(p.take(0) + p.skip(0) =~= p);
        assert(p.take(0) + stash_spec(p.skip(0), time, data) =~= stash_spec(p, time, data));
    } else {
        let rest = p.drop_first();
        assert forall|j: int| 0 <= j < i - 1 implies (#[trigger] rest[j]).0 < time by {
            assert(rest[j] == p[j + 1]);
        }
        lemma_stash_skip(rest, time, data, i - 1);
        assert(rest.skip(i - 1) =~= p.skip(i));
        assert(seq![p[0]] + rest.take(i - 1) =~= p.take(i));
        assert(p[0].0 < time);
        assert(seq![p[0]] + (rest.take(i - 1) + stash_spec(p.skip(i), time, data)) =~= p.take(i)
            + stash_spec(p.skip(i), time, data));
    }
}

/// Buffering keeps the buffer in time order, and its first time is the least of `time` and the
/// first time before.
proof fn lemma_stash_sorted<V>(p: Seq<(u64, Seq<Record<V>>)>, time: u64, data: Seq<Record<V>>)
    requires
        sorted_times(p),
    ensures
        sorted_times(stash_spec(p, time, data)),
        stash_spec(p, time, data).len() > 0,
        stash_spec(p, time, data)[0].0 == (if p.len() == 0 || time < p[0].0 {
            time
        } else {
            p[0].0
        }),
    decreases p.len(),
{
    let r = stash_spec(p, time, data);
    if p.len() == 0 {
    } else if p[0].0 == time {
        assert forall|i: int, j: int| 0 <= i < j < r.len() implies (#[trigger] r[i]).0 < (
        #[trigger] r[j]).0 by {
            assert(p[i].0 < p[j].0);
        }
    } else if p[0].0 > time {
        assert forall|i: int, j: int| 0 <= i < j < r.len() implies (#[trigger] r[i]).0 < (
        #[trigger] r[j]).0 by {
            if i > 0 {
                assert(p[i - 1].0 < p[j - 1].0);
            } else if j > 1 {
                assert(p[0].0 < p[j - 1].0);
            }
        }
    } else {
        let rest = p.drop_first();
        assert(sorted_times(rest)) by {
            assert forall|i: int, j: int| 0 <= i < j < rest.len() implies (#[trigger] rest[i]).0 < (
            #[trigger] rest[j]).0 by {
                assert(p[i + 1].0 < p[j + 1].0);
            }
        }
        lemma_stash_sorted(rest, time, data);
        let sr = stash_spec(rest, time, data);
        if rest.len() > 0 {
            assert(rest[0] == p[1]);
            assert(p[0].0 < p[1].0);
        }
        assert(sr[0].0 > p[0].0);
        assert forall|i: int, j: int| 0 <= i < j < r.len() implies (#[trigger] r[i]).0 < (
        #[trigger] r[j]).0 by {
            assert(r[j] == sr[j - 1]);
            if i > 0 {
                assert(r[i] == sr[i - 1]);
            } else if j > 1 {
                assert(sr[0].0 < sr[j - 1].0);
            }
        }
    }
}

} // verus!
