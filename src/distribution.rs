//! Routing by the committed mapping, relocation of bins whose owner changed, and the order of
//! committed control sets.
use crate::control::{ControlError, ControlSet};
use crate::frontier::{antichain_elements, antichain_less_equal, antichain_to_vec, some_at_most};
use crate::{bin_of, key_to_bin, BIN_SHIFT};
use vstd::prelude::*;

verus! {

/// The worker that owns `key` under `map`, if the key's bin is in the map.
pub open spec fn owner_of(map: Seq<usize>, key: u64) -> Option<usize> {
    let b = bin_of(key, BIN_SHIFT as u64);
    if b < map.len() {
        Some(map[b as int])
    } else {
        None
    }
}

/// The relocations between two mappings over their first `n` bins: each bin whose owner
/// changed, with its old and new owner, in bin order.
pub open spec fn relocations_upto(prev: Seq<usize>, next: Seq<usize>, n: int) -> Seq<
    (usize, usize, usize),
>
    decreases n,
{
    if n <= 0 {
        Seq::empty()
    } else if prev[n - 1] != next[n - 1] {
        relocations_upto(prev, next, n - 1).push(((n - 1) as usize, prev[n - 1], next[n - 1]))
    } else {
        relocations_upto(prev, next, n - 1)
    }
}

/// The worker that owns `key` under the committed mapping of `set`; `None` where the mapping
/// does not cover the key's bin.
pub fn worker_for_key(set: &ControlSet, key: u64) -> (r: Option<usize>)
    ensures
        r == owner_of(set.map@, key),
{
    let b = key_to_bin(key);
    if b < set.map.len() {
        Some(set.map[b])
    } else {
        None
    }
}

/// The bins whose owner differs between two mappings of the same length, with the worker that
/// must hand each out and the worker that must take it in.
pub fn relocations(prev: &Vec<usize>, next: &Vec<usize>) -> (r: Vec<(usize, usize, usize)>)
    requires
        prev@.len() == next@.len(),
    ensures
        r@ == relocations_upto(prev@, next@, prev@.len() as int),
{
    let mut r: Vec<(usize, usize, usize)> = Vec::new();
    let mut i: usize = 0;
    while i < prev.len()
        invariant
            i <= prev@.len(),
            prev@.len() == next@.len(),
            r@ == relocations_upto(prev@, next@, i as int),
        decreases prev@.len() - i,
    {
        if prev[i] != next[i] {
            r.push((i, prev[i], next[i]));
        }
        i = i + 1;
    }
    r
}

/// Frontier `a` is at or before frontier `b`: every element of `b` is at least some element of
/// `a`.
pub open spec fn frontier_le(a: Seq<u64>, b: Seq<u64>) -> bool {
    forall|j: int| 0 <= j < b.len() ==> some_at_most(a, #[trigger] b[j])
}

/// A committed set is in effect at time `t` once some element of its frontier is at most `t`.
pub open spec fn in_effect(set: ControlSet, t: u64) -> bool {
    some_at_most(antichain_elements(set.frontier), t)
}

/// The control sets that a worker has committed, in order.
pub struct ControlLog {
    pub sets: Vec<ControlSet>,
}

impl ControlLog {
    /// Sequence numbers strictly increase and frontiers never go back.
    pub open spec fn wf(&self) -> bool {
        forall|i: int, j: int|
            0 <= i < j < self.sets@.len() ==> (#[trigger] self.sets@[i]).sequence < (
            #[trigger] self.sets@[j]).sequence && frontier_le(
                antichain_elements(self.sets@[i].frontier),
                antichain_elements(self.sets@[j].frontier),
            )
    }

    /// A log that holds the first committed set alone.
    pub fn new(first: ControlSet) -> (r: Self)
        ensures
            r.wf(),
            r.sets@ == seq![first],
    {
        let mut sets = Vec::new();
        sets.push(first);
        ControlLog { sets }
    }

    /// Commits `set` after the others. It is refused, and the log left as it was, where its
    /// sequence number is not above the last one or its frontier is not at or after the last
    /// one.
    pub fn commit(&mut self, set: ControlSet) -> (r: Result<(), ControlError>)
        requires
            old(self).wf(),
            old(self).sets@.len() > 0,
        ensures
            final(self).wf(),
            ({
                let last = old(self).sets@.last();
                if set.sequence <= last.sequence {
                    r == Err::<(), ControlError>(ControlError::StaleSequence) && final(self).sets@
                        == old(self).sets@
                } else if !frontier_le(
                    antichain_elements(last.frontier),
                    antichain_elements(set.frontier),
                ) {
                    r == Err::<(), ControlError>(ControlError::FrontierRegressed)
                        && final(self).sets@ == old(self).sets@
                } else {
                    r is Ok && final(self).sets@ == old(self).sets@.push(set)
                }
            }),
    {
        let k = self.sets.len() - 1;
        if set.sequence <= self.sets[k].sequence {
            return Err(ControlError::StaleSequence);
        }
        let elems = antichain_to_vec(&set.frontier);
        let mut j: usize = 0;
        while j < elems.len()
            invariant
                j <= elems@.len(),
                k == self.sets@.len() - 1,
                self.sets@ == old(self).sets@,
                old(self).wf(),
                set.sequence > self.sets@[k as int].sequence,
                elems@ == antichain_elements(set.frontier),
                forall|m: int|
                    0 <= m < j ==> some_at_most(
                        antichain_elements(self.sets@[k as int].frontier),
                        #[trigger] elems@[m],
                    ),
            decreases elems@.len() - j,
        {
            if !antichain_less_equal(&self.sets[k].frontier, elems[j]) {
                proof {
                    assert(self.sets@.last() == self.sets@[k as int]);
                }
                return Err(ControlError::FrontierRegressed);
            }
            j = j + 1;
        }
        let ghost prev = self.sets@;
        self.sets.push(set);
        proof {
            assert forall|i: int, m: int|
                0 <= i < m < self.sets@.len() implies (#[trigger] self.sets@[i]).sequence < (
            #[trigger] self.sets@[m]).sequence && frontier_le(
                antichain_elements(self.sets@[i].frontier),
                antichain_elements(self.sets@[m].frontier),
            ) by {
                if m == prev.len() {
                    let fi = antichain_elements(prev[i].frontier);
                    let fk = antichain_elements(prev[k as int].frontier);
                    let fs = antichain_elements(set.frontier);
                    if i < k {
                        assert(prev[i].sequence < prev[k as int].sequence);
                        assert(frontier_le(fi, fk));
                    }
                    assert forall|q: int| 0 <= q < fs.len() implies some_at_most(
                        fi,
                        #[trigger] fs[q],
                    ) by {
                        assert(some_at_most(fk, fs[q]));
                        let w = choose|x: int| 0 <= x < fk.len() && fk[x] <= fs[q];
                        if i < k {
                            assert(some_at_most(fi, fk[w]));
                        }
                    }
                }
            }
        }
        Ok(())
    }

    /// The index of the set in effect at time `t`: the last one committed whose frontier is at
    /// most `t`, or `None` where no set is in effect yet.
    pub fn in_effect_at(&self, t: u64) -> (r: Option<usize>)
        ensures
            match r {
                Some(i) => i < self.sets@.len() && in_effect(self.sets@[i as int], t) && forall|
                    j: int,
                | i < j < self.sets@.len() ==> !in_effect(#[trigger] self.sets@[j], t),
                None => forall|j: int|
                    0 <= j < self.sets@.len() ==> !in_effect(#[trigger] self.sets@[j], t),
            },
    {
        let mut i: usize = self.sets.len();
        while i > 0
            invariant
                i <= self.sets@.len(),
                forall|j: int| i <= j < self.sets@.len() ==> !in_effect(#[trigger] self.sets@[j], t),
            decreases i,
        {
            if antichain_less_equal(&self.sets[i - 1].frontier, t) {
                return Some(i - 1);
            }
            i = i - 1;
        }
        None
    }
}

/// In a log whose frontiers never go back, the sets in effect at a time are a prefix of the
/// log: each set committed before one in effect is in effect too, so the mapping in effect at
/// `t` is that of the last committed set whose frontier is at most `t`.
pub proof fn lemma_in_effect_prefix(log: ControlLog, i: int, j: int, t: u64)
    requires
        log.wf(),
        0 <= i < j < log.sets@.len(),
        in_effect(log.sets@[j], t),
    ensures
        in_effect(log.sets@[i], t),
{
    let fi = antichain_elements(log.sets@[i].frontier);
    let fj = antichain_elements(log.sets@[j].frontier);
    assert(frontier_le(fi, fj));
    let w = choose|x: int| 0 <= x < fj.len() && fj[x] <= t;
    assert(some_at_most(fi, fj[w]));
}

} // verus!
