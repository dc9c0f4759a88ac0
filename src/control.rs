//! Reconfiguration messages and the builder that commits them as one mapping.
use crate::frontier::{antichain_elements, antichain_from_times, minimal_times};
use timely::progress::frontier::Antichain;
use vstd::prelude::*;

verus! {

/// A bin identifier.
#[derive(Clone, Copy, Debug, PartialEq, Eq, Structural, PartialOrd, Ord)]
pub struct Bin(pub usize);

/// A control instruction.
#[derive(Clone, Debug)]
pub enum ControlInst {
    /// Provide a new map.
    NewMap(Vec<usize>),
    /// Move one bin to a worker.
    Move(Bin, usize),
    /// No-op.
    NoOp,
}

/// A control message: a sequence number, the number of messages to expect under it, and an
/// instruction.
#[derive(Clone, Debug)]
pub struct Control {
    pub sequence: u64,
    pub count: usize,
    pub inst: ControlInst,
}

/// Why a control fragment or a commit was refused.
#[derive(Clone, Copy, Debug, PartialEq, Eq, Structural)]
pub enum ControlError {
    /// A fragment carried a sequence number other than the one being accumulated.
    SequenceMismatch,
    /// More fragments arrived than the declared count.
    TooManyFragments,
    /// A commit was asked for before the declared count of fragments had arrived.
    IncompleteCommit,
    /// A move named a bin outside the mapping.
    BinOutOfRange,
    /// A committed set did not carry a sequence number above the last one.
    StaleSequence,
    /// A committed set's frontier was not at or after the last one.
    FrontierRegressed,
}

impl Control {
    /// Construct a new `Control`.
    pub fn new(sequence: u64, count: usize, inst: ControlInst) -> (r: Self)
        ensures
            r.sequence == sequence,
            r.count == count,
            r.inst == inst,
    {
        Control { sequence, count, inst }
    }
}

/// A committed set of control instructions: the mapping from bin to worker, authoritative from
/// its frontier onward.
pub struct ControlSet {
    /// Its sequence number.
    pub sequence: u64,
    /// The frontier at which the mapping takes effect.
    pub frontier: Antichain<u64>,
    /// The worker of each bin.
    pub map: Vec<usize>,
}

impl ControlSet {
    /// A control set with the given sequence number and mapping that is in effect from time `time`.
    pub fn new(sequence: u64, time: u64, map: Vec<usize>) -> (r: Self)
        ensures
            r.sequence == sequence,
            antichain_elements(r.frontier) == seq![time],
            r.map@ == map@,
    {
        let times = vec![time];
        let frontier = antichain_from_times(&times);
        proof {
            assert(times@.drop_last() =~= Seq::<u64>::empty());
        }
        ControlSet { sequence, frontier, map }
    }

    /// Obtain the current bin to destination mapping.
    pub fn map(&self) -> (r: &Vec<usize>)
        ensures
            r@ == self.map@,
    {
        &self.map
    }
}

/// The abstract state of a builder.
pub struct BuilderView {
    pub sequence: Option<u64>,
    pub frontier: Seq<u64>,
    pub instructions: Seq<ControlInst>,
    pub remaining: Option<usize>,
}

/// A builder before any fragment or time has been given to it.
pub open spec fn empty_builder() -> BuilderView {
    BuilderView {
        sequence: None,
        frontier: Seq::empty(),
        instructions: Seq::empty(),
        remaining: None,
    }
}

/// The builder after one fragment, or why the fragment is refused.
pub open spec fn apply_spec(b: BuilderView, c: Control) -> Result<BuilderView, ControlError> {
    let remaining = match b.remaining {
        Some(n) => n,
        None => c.count,
    };
    if remaining == 0 {
        Err(ControlError::TooManyFragments)
    } else if b.sequence is Some && b.sequence->0 != c.sequence {
        Err(ControlError::SequenceMismatch)
    } else {
        Ok(
            BuilderView {
                sequence: Some(c.sequence),
                frontier: b.frontier,
                instructions: if c.inst is NoOp {
                    b.instructions
                } else {
                    b.instructions.push(c.inst)
                },
                remaining: Some((remaining - 1) as usize),
            },
        )
    }
}

/// Whether a builder has seen at least one fragment and exactly as many as were declared.
pub open spec fn ready(b: BuilderView) -> bool {
    b.sequence is Some && b.remaining == Some(0usize)
}

/// A mapping after one instruction, or `None` where a move names a bin outside it.
pub open spec fn step_map(m: Seq<usize>, inst: ControlInst) -> Option<Seq<usize>> {
    match inst {
        ControlInst::NewMap(v) => Some(v@),
        ControlInst::Move(bin, target) => if bin.0 < m.len() {
            Some(m.update(bin.0 as int, target))
        } else {
            None
        },
        ControlInst::NoOp => Some(m),
    }
}

/// A mapping after a list of instructions applied in order.
pub open spec fn replay(m: Seq<usize>, insts: Seq<ControlInst>) -> Option<Seq<usize>>
    decreases insts.len(),
{
    if insts.len() == 0 {
        Some(m)
    } else {
        match replay(m, insts.drop_last()) {
            Some(m2) => step_map(m2, insts.last()),
            None => None,
        }
    }
}

/// The mapping that a builder commits on top of `previous`, or why it cannot.
pub open spec fn build_spec(b: BuilderView, previous: Seq<usize>) -> Result<Seq<usize>, ControlError> {
    if !ready(b) {
        Err(ControlError::IncompleteCommit)
    } else {
        match replay(previous, b.instructions) {
            Some(m) => Ok(m),
            None => Err(ControlError::BinOutOfRange),
        }
    }
}

/// Accumulates the fragments of one reconfiguration.
pub struct ControlSetBuilder {
    pub sequence: Option<u64>,
    pub frontier: Vec<u64>,
    pub instructions: Vec<ControlInst>,
    pub count: Option<usize>,
}

impl View for ControlSetBuilder {
    type V = BuilderView;

    open spec fn view(&self) -> BuilderView {
        BuilderView {
            sequence: self.sequence,
            frontier: self.frontier@,
            instructions: self.instructions@,
            remaining: self.count,
        }
    }
}

impl Default for ControlSetBuilder {
    fn default() -> (r: Self)
        ensures
            r@ == empty_builder(),
    {
        ControlSetBuilder {
            sequence: None,
            frontier: Vec::new(),
            instructions: Vec::new(),
            count: None,
        }
    }
}

impl ControlSetBuilder {
    /// Accepts one fragment. A refused fragment leaves the builder as it was.
    pub fn apply(&mut self, control: Control) -> (r: Result<(), ControlError>)
        ensures
            match apply_spec(old(self)@, control) {
                Ok(b) => r is Ok && final(self)@ == b,
                Err(e) => r == Err::<(), ControlError>(e) && final(self)@ == old(self)@,
            },
    {
        let remaining = match self.count {
            Some(n) => n,
            None => control.count,
        };
        if remaining == 0 {
            return Err(ControlError::TooManyFragments);
        }
        match self.sequence {
            Some(s) => {
                if s != control.sequence {
                    return Err(ControlError::SequenceMismatch);
                }
            },
            None => {},
        }
        self.count = Some(remaining - 1);
        self.sequence = Some(control.sequence);
        match control.inst {
            ControlInst::NoOp => {},
            inst => self.instructions.push(inst),
        }
        Ok(())
    }

    /// Records logical times at which fragments were observed.
    pub fn frontier(&mut self, caps: Vec<u64>)
        ensures
            final(self)@ == (BuilderView { frontier: old(self)@.frontier + caps@, ..old(self)@ }),
    {
        let mut caps = caps;
        self.frontier.append(&mut caps);
    }

    /// Commits the accumulated instructions on top of `previous`.
    pub fn build(self, previous: &ControlSet) -> (r: Result<ControlSet, ControlError>)
        ensures
            match build_spec(self@, previous.map@) {
                Ok(m) => r is Ok && r->Ok_0.map@ == m && r->Ok_0.sequence == self.sequence->0
                    && antichain_elements(r->Ok_0.frontier) == minimal_times(self.frontier@),
                Err(e) => r is Err && r->Err_0 == e,
            },
    {
        let sequence = match self.sequence {
            Some(s) => s,
            None => return Err(ControlError::IncompleteCommit),
        };
        match self.count {
            Some(n) => {
                if n != 0 {
                    return Err(ControlError::IncompleteCommit);
                }
            },
            None => return Err(ControlError::IncompleteCommit),
        }
        let mut map = previous.map.clone();
        let mut i: usize = 0;
        while i < self.instructions.len()
            invariant
                i <= self.instructions.len(),
                ready(self@),
                self.sequence == Some(sequence),
                replay(previous.map@, self.instructions@.subrange(0, i as int)) == Some(map@),
            decreases self.instructions.len() - i,
        {
            let ghost prefix = self.instructions@.subrange(0, i as int + 1);
            proof {
                assert(prefix.drop_last() =~= self.instructions@.subrange(0, i as int));
            }
            match &self.instructions[i] {
                ControlInst::NewMap(new_map) => {
                    map = new_map.clone();
                },
                ControlInst::Move(bin, target) => {
                    if bin.0 >= map.len() {
                        proof {
                            assert(prefix.last() == self.instructions@[i as int]);
                            assert(replay(previous.map@, prefix) is None);
                            lemma_replay_stuck(previous.map@, self.instructions@, i as int + 1);
                        }
                        return Err(ControlError::BinOutOfRange);
                    }
                    map.set(bin.0, *target);
                },
                ControlInst::NoOp => {},
            }
            i = i + 1;
        }
        proof {
            assert(self.instructions@.subrange(0, self.instructions.len() as int)
                =~= self.instructions@);
        }
        let frontier = antichain_from_times(&self.frontier);
        Ok(ControlSet { sequence, frontier, map })
    }
}

/// Once a prefix of the instructions fails, the whole list fails.
pub proof fn lemma_replay_stuck(m: Seq<usize>, insts: Seq<ControlInst>, k: int)
    requires
        0 <= k <= insts.len(),
        replay(m, insts.subrange(0, k)) is None,
    ensures
        replay(m, insts) is None,
    decreases insts.len() - k,
{
    if k == insts.len() {
        assert(insts.subrange(0, k) =~= insts);
    } else {
        assert(insts.subrange(0, k + 1).drop_last() =~= insts.subrange(0, k));
        lemma_replay_stuck(m, insts, k + 1);
    }
}

/// A builder after a list of fragments applied in order, or the first refusal.
pub open spec fn apply_all(b: BuilderView, fs: Seq<Control>) -> Result<BuilderView, ControlError>
    decreases fs.len(),
{
    if fs.len() == 0 {
        Ok(b)
    } else {
        match apply_all(b, fs.drop_last()) {
            Ok(b2) => apply_spec(b2, fs.last()),
            Err(e) => Err(e),
        }
    }
}

/// The instructions of a list of fragments, no-ops left out, in order.
pub open spec fn instructions_of(fs: Seq<Control>) -> Seq<ControlInst>
    decreases fs.len(),
{
    if fs.len() == 0 {
        Seq::empty()
    } else if fs.last().inst is NoOp {
        instructions_of(fs.drop_last())
    } else {
        instructions_of(fs.drop_last()).push(fs.last().inst)
    }
}

/// Fragments that share a sequence number `s` and a count `n`, given to a fresh builder, are
/// all accepted exactly when there are at most `n` of them; the builder is then ready to commit
/// exactly when there are `n` of them, and holds their instructions in order, so that the
/// committed mapping depends on the fragments alone.
pub proof fn lemma_commit_atomicity(fs: Seq<Control>, s: u64, n: usize)
    requires
        forall|i: int| 0 <= i < fs.len() ==> (#[trigger] fs[i]).sequence == s && fs[i].count == n,
    ensures
        (apply_all(empty_builder(), fs) is Ok) == (fs.len() <= n),
        fs.len() <= n ==> (ready(apply_all(empty_builder(), fs)->Ok_0) <==> (fs.len() == n && n
            > 0)),
        fs.len() <= n ==> apply_all(empty_builder(), fs)->Ok_0.instructions == instructions_of(fs),
        fs.len() <= n && fs.len() > 0 ==> apply_all(empty_builder(), fs)->Ok_0.remaining == Some(
            (n - fs.len()) as usize,
        ) && apply_all(empty_builder(), fs)->Ok_0.sequence == Some(s),
        fs.len() <= n ==> apply_all(empty_builder(), fs)->Ok_0.frontier == Seq::<u64>::empty(),
    decreases fs.len(),
{
    if fs.len() > 0 {
        let prefix = fs.drop_last();
        assert forall|i: int| 0 <= i < prefix.len() implies (#[trigger] prefix[i]).sequence == s
            && prefix[i].count == n by {
            assert(prefix[i] == fs[i]);
        }
        lemma_commit_atomicity(prefix, s, n);
        assert(fs.last() == fs[fs.len() - 1]);
    }
}

/// A no-op fragment that is accepted changes neither the instructions nor the times of a
/// builder, so the mapping it commits is the same with or without it.
pub proof fn lemma_noop_keeps_mapping(b: BuilderView, c: Control, previous: Seq<usize>)
    requires
        c.inst is NoOp,
        apply_spec(b, c) is Ok,
    ensures
        apply_spec(b, c)->Ok_0.instructions == b.instructions,
        apply_spec(b, c)->Ok_0.frontier == b.frontier,
        replay(previous, apply_spec(b, c)->Ok_0.instructions) == replay(previous, b.instructions),
{
}

/// Whether every full map among `insts` has `n` entries.
pub open spec fn maps_have_len(insts: Seq<ControlInst>, n: nat) -> bool {
    forall|i: int| 0 <= i < insts.len() ==> match #[trigger] insts[i] {
        ControlInst::NewMap(v) => v@.len() == n,
        _ => true,
    }
}

/// A mapping of `n` bins stays one of `n` bins under instructions whose full maps have `n`
/// entries: each bin keeps exactly one owner at every commit.
pub proof fn lemma_replay_keeps_bins(m: Seq<usize>, insts: Seq<ControlInst>, n: nat)
    requires
        m.len() == n,
        maps_have_len(insts, n),
    ensures
        replay(m, insts) is Some ==> replay(m, insts)->0.len() == n,
    decreases insts.len(),
{
    if insts.len() > 0 {
        let prefix = insts.drop_last();
        assert forall|i: int| 0 <= i < prefix.len() implies match #[trigger] prefix[i] {
            ControlInst::NewMap(v) => v@.len() == n,
            _ => true,
        } by {
            assert(prefix[i] == insts[i]);
        }
        lemma_replay_keeps_bins(m, prefix, n);
        assert(insts.last() == insts[insts.len() - 1]);
    }
}

/// Two moves of different bins commit the same mapping in either order.
pub proof fn lemma_moves_commute(
    m: Seq<usize>,
    insts: Seq<ControlInst>,
    b1: Bin,
    t1: usize,
    b2: Bin,
    t2: usize,
)
    requires
        b1.0 != b2.0,
    ensures
        replay(m, insts.push(ControlInst::Move(b1, t1)).push(ControlInst::Move(b2, t2))) == replay(
            m,
            insts.push(ControlInst::Move(b2, t2)).push(ControlInst::Move(b1, t1)),
        ),
{
    let x = insts.push(ControlInst::Move(b1, t1));
    let y = insts.push(ControlInst::Move(b2, t2));
    assert(x.push(ControlInst::Move(b2, t2)).drop_last() =~= x);
    assert(y.push(ControlInst::Move(b1, t1)).drop_last() =~= y);
    assert(x.drop_last() =~= insts);
    assert(y.drop_last() =~= insts);
    assert(replay(m, x) == match replay(m, insts) {
        Some(m0) => step_map(m0, ControlInst::Move(b1, t1)),
        None => None,
    });
    assert(replay(m, y) == match replay(m, insts) {
        Some(m0) => step_map(m0, ControlInst::Move(b2, t2)),
        None => None,
    });
    if let Some(m0) = replay(m, insts) {
        if b1.0 < m0.len() && b2.0 < m0.len() {
            assert(m0.update(b1.0 as int, t1).update(b2.0 as int, t2) =~= m0.update(
                b2.0 as int,
                t2,
            ).update(b1.0 as int, t1));
        }
    }
}

} // verus!
