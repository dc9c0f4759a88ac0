//! Dynamic repartitioning of keyed state in a streaming dataflow: keys fall into bins by the
//! top bits of their hash, a control protocol commits a new bin-to-worker mapping at a logical
//! time, and a per-key state machine folds records once their time has closed, with the state
//! of each bin able to move between workers as a unit.
use vstd::prelude::*;

pub mod control;
pub mod distribution;
pub mod frontier;
pub mod operator;
pub mod state;

verus! {

/// Number of high hash bits that select a bin.
pub const BIN_SHIFT: usize = 8;

/// Number of bins: two to the power `BIN_SHIFT`.
pub const NUM_BINS: usize = 256;

/// The bin of a 64-bit key hash under `shift` bin bits: its top `shift` bits.
pub open spec fn bin_of(key: u64, shift: u64) -> u64
    recommends
        1 <= shift <= 63,
{
    key >> ((64u64 - shift) as u64)
}

/// For every bin count `2^shift` and every key, the key's bin is below `2^shift`; the bin
/// depends on the key alone.
pub proof fn lemma_bin_in_range(key: u64, shift: u64)
    requires
        1 <= shift <= 63,
    ensures
        bin_of(key, shift) < (1u64 << shift),
{
    assert((key >> ((64u64 - shift) as u64)) < (1u64 << shift)) by (bit_vector)
        requires
            1 <= shift <= 63,
    ;
}

/// Selects the bin of a key hash from its top `BIN_SHIFT` bits.
pub fn key_to_bin(key: u64) -> (r: usize)
    ensures
        r == bin_of(key, BIN_SHIFT as u64),
        r < NUM_BINS,
{
    proof {
        lemma_bin_in_range(key, BIN_SHIFT as u64);
        assert((1u64 << 8u64) == 256) by (bit_vector);
    }
    (key >> (64 - BIN_SHIFT as u64)) as usize
}

} // verus!
