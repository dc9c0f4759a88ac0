//! Per-worker key state, partitioned by bin so that a bin's state moves as a unit.
use std::collections::HashMap;
use vstd::prelude::*;

verus! {

broadcast use vstd::std_specs::hash::group_hash_axioms;

/// The state of each key, one map per bin.
pub struct StateStore<D> {
    pub bins: Vec<HashMap<u64, D>>,
}

/// The bins of a store after bin `bin` was handed out: that bin is empty, the others as before.
pub open spec fn after_take<D>(s: Seq<Map<u64, D>>, bin: int) -> Seq<Map<u64, D>> {
    s.update(bin, Map::empty())
}

/// The bins of a store after `state` arrived for bin `bin`.
pub open spec fn after_install<D>(s: Seq<Map<u64, D>>, bin: int, state: Map<u64, D>) -> Seq<
    Map<u64, D>,
> {
    s.update(bin, state)
}

/// One application of the transition logic to value `val` of `key` in bin `bin`: the key's
/// state, or any state where it has none, went to `fold`, which produced `out`, and the bins
/// went from `before` to `after`.
pub open spec fn fold_step<D, V, R, F: Fn(u64, V, D) -> (bool, D, Vec<R>)>(
    fold: F,
    before: Seq<Map<u64, D>>,
    bin: usize,
    key: u64,
    val: V,
    after: Seq<Map<u64, D>>,
    out: Seq<R>,
) -> bool {
    exists|s: D, res: (bool, D, Vec<R>)|
        {
            &&& (before[bin as int].contains_key(key) ==> s == before[bin as int][key])
            &&& fold.ensures((key, val, s), res)
            &&& out == res.2@
            &&& after == before.update(
                bin as int,
                after_fold(before[bin as int], key, res.0, res.1),
            )
        }
}

/// The map of one bin after a fold step on `key` that produced `remove` and `next`.
pub open spec fn after_fold<D>(m: Map<u64, D>, key: u64, remove: bool, next: D) -> Map<u64, D> {
    if remove {
        m.remove(key)
    } else {
        m.insert(key, next)
    }
}

impl<D> View for StateStore<D> {
    type V = Seq<Map<u64, D>>;

    open spec fn view(&self) -> Seq<Map<u64, D>> {
        self.bins@.map_values(|m: HashMap<u64, D>| m@)
    }
}

impl<D> StateStore<D> {
    /// A store of `num_bins` empty bins.
    pub fn new(num_bins: usize) -> (r: Self)
        ensures
            r@.len() == num_bins,
            forall|i: int| 0 <= i < num_bins ==> #[trigger] r@[i] == Map::<u64, D>::empty(),
    {
        let mut bins: Vec<HashMap<u64, D>> = Vec::new();
        let mut i: usize = 0;
        while i < num_bins
            invariant
                i <= num_bins,
                bins@.len() == i,
                forall|j: int| 0 <= j < i ==> #[trigger] bins@[j]@ == Map::<u64, D>::empty(),
            decreases num_bins - i,
        {
            bins.push(HashMap::new());
            i = i + 1;
        }
        StateStore { bins }
    }

    /// The number of bins.
    pub fn num_bins(&self) -> (r: usize)
        ensures
            r == self@.len(),
    {
        self.bins.len()
    }

    /// The state of `key` in bin `bin`, if it has one.
    pub fn get(&self, bin: usize, key: u64) -> (r: Option<&D>)
        requires
            bin < self@.len(),
        ensures
            match r {
                Some(v) => self@[bin as int].contains_key(key) && *v == self@[bin as int][key],
                None => !self@[bin as int].contains_key(key),
            },
    {
        self.bins[bin].get(&key)
    }

    /// Hands out the whole state of bin `bin`, leaving it empty.
    pub fn take_bin(&mut self, bin: usize) -> (r: HashMap<u64, D>)
        requires
            bin < old(self)@.len(),
        ensures
            r@ == old(self)@[bin as int],
            final(self)@ == after_take(old(self)@, bin as int),
    {
        let m = self.bins.remove(bin);
        self.bins.insert(bin, HashMap::new());
        proof {
            assert(final(self)@ =~= after_take(old(self)@, bin as int));
        }
        m
    }

    /// Takes in the state of bin `bin` sent by its previous owner. The bin must be empty here;
    /// otherwise the store is left as it was and the state is handed back.
    pub fn install_bin(&mut self, bin: usize, state: HashMap<u64, D>) -> (r: Result<
        (),
        HashMap<u64, D>,
    >)
        requires
            bin < old(self)@.len(),
        ensures
            old(self)@[bin as int].dom().is_empty() ==> r is Ok && final(self)@ == after_install(
                old(self)@,
                bin as int,
                state@,
            ),
            !old(self)@[bin as int].dom().is_empty() ==> r is Err && r->Err_0@ == state@
                && final(self)@ == old(self)@,
    {
        if !self.bins[bin].is_empty() {
            proof {
                assert(self.bins@[bin as int]@.len() > 0);
                assert(!old(self)@[bin as int].dom().is_empty()) by {
                    let m = old(self)@[bin as int];
                    if m.dom().is_empty() {
                        assert(m.dom() =~= Set::<u64>::empty());
                    }
                }
            }
            return Err(state);
        }
        proof {
            let m = old(self)@[bin as int];
            assert(m.dom().len() == 0);
            assert(m.dom().is_empty());
        }
        self.bins.remove(bin);
        self.bins.insert(bin, state);
        proof {
            assert(final(self)@ =~= after_install(old(self)@, bin as int, state@));
        }
        Ok(())
    }

    /// Applies the transition logic to one record of bin `bin`: the key's state, or a default
    /// one where it has none, goes to `fold` with the key and value; the state that comes back
    /// replaces it, or the key is dropped where `fold` says so. Returns what `fold` produced.
    pub fn fold_record<V, R, F>(&mut self, bin: usize, key: u64, val: V, fold: &F) -> (r: Vec<R>)
        where
            D: Default,
            F: Fn(u64, V, D) -> (bool, D, Vec<R>),
        requires
            bin < old(self)@.len(),
            forall|k: u64, v: V, s: D| fold.requires((k, v, s)),
        ensures
            fold_step(*fold, old(self)@, bin, key, val, final(self)@, r@),
    {
        let mut m = self.bins.remove(bin);
        let ghost before = m@;
        let current = match m.remove(&key) {
            Some(s) => s,
            None => D::default(),
        };
        let res = fold(key, val, current);
        let ghost res_g = res;
        let (remove, next, out) = res;
        if !remove {
            m.insert(key, next);
        }
        proof {
            assert(m@ =~= after_fold(before, key, remove, next));
        }
        self.bins.insert(bin, m);
        proof {
            assert(final(self)@ =~= old(self)@.update(
                bin as int,
                after_fold(old(self)@[bin as int], key, remove, next),
            ));
            assert(out@ == res_g.2@);
        }
        out
    }
}

/// Moving a bin conserves its state: once the losing worker has handed bin `bin` out and the
/// gaining worker, which held nothing in it, has taken it in, the gaining worker holds exactly
/// the keys and states that the losing worker held, the losing worker holds none, and no other
/// bin of either changed.
pub proof fn lemma_state_conservation<D>(from: Seq<Map<u64, D>>, to: Seq<Map<u64, D>>, bin: int)
    requires
        0 <= bin < from.len(),
        bin < to.len(),
        to[bin] == Map::<u64, D>::empty(),
    ensures
        after_install(to, bin, from[bin])[bin] == from[bin],
        after_take(from, bin)[bin] == Map::<u64, D>::empty(),
        forall|i: int|
            0 <= i < from.len() && i != bin ==> #[trigger] after_take(from, bin)[i] == from[i],
        forall|i: int|
            0 <= i < to.len() && i != bin ==> #[trigger] after_install(to, bin, from[bin])[i]
                == to[i],
{
}

} // verus!
