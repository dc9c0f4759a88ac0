use dynamic_scaling::control::{Bin, Control, ControlError, ControlInst, ControlSet, ControlSetBuilder};
use dynamic_scaling::distribution::{relocations, worker_for_key, ControlLog};
use dynamic_scaling::frontier::{antichain_from_times, frontier_elements};
use dynamic_scaling::{key_to_bin, NUM_BINS};

fn identity_map(n: usize) -> Vec<usize> {
    (0..n).collect()
}

#[test]
fn key_to_bin_uses_top_bits() {
    assert_eq!(key_to_bin(0), 0);
    assert_eq!(key_to_bin(u64::MAX), 255);
    assert_eq!(key_to_bin(1u64 << 56), 1);
    assert_eq!(key_to_bin(0xAB00_0000_0000_0001), 0xAB);
    assert_eq!(key_to_bin((1u64 << 56) - 1), 0);
    assert!(key_to_bin(0x1234_5678_9abc_def0) < NUM_BINS);
}

#[test]
fn key_to_bin_is_deterministic() {
    let k = 0x9e37_79b9_7f4a_7c15u64;
    assert_eq!(key_to_bin(k), key_to_bin(k));
    assert_eq!(key_to_bin(k), 0x9e);
}

#[test]
fn control_new_keeps_fields() {
    let c = Control::new(9, 3, ControlInst::Move(Bin(4), 1));
    assert_eq!(c.sequence, 9);
    assert_eq!(c.count, 3);
    assert!(matches!(c.inst, ControlInst::Move(Bin(4), 1)));
}

#[test]
fn single_map_control_commits_the_map() {
    let previous = ControlSet::new(0, 0, vec![0; 4]);
    let mut b = ControlSetBuilder::default();
    assert_eq!(b.apply(Control::new(1, 1, ControlInst::NewMap(vec![0, 1, 2, 3]))), Ok(()));
    b.frontier(vec![0]);
    let set = b.build(&previous).unwrap();
    assert_eq!(set.sequence, 1);
    assert_eq!(set.map(), &vec![0, 1, 2, 3]);
    assert_eq!(frontier_elements(&set.frontier), vec![0]);
}

#[test]
fn key_in_bin_two_is_routed_to_its_owner_at_all_later_times() {
    // Bin 2 is owned by worker 3; every later time resolves to the same set.
    let mut map = identity_map(NUM_BINS);
    map[2] = 3;
    let set = ControlSet::new(0, 0, map);
    let key = (2u64 << 56) | 12345;
    assert_eq!(key_to_bin(key), 2);
    assert_eq!(worker_for_key(&set, key), Some(3));
    let log = ControlLog::new(set);
    for t in [0u64, 1, 50, 1000, u64::MAX] {
        let i = log.in_effect_at(t).unwrap();
        assert_eq!(i, 0);
        assert_eq!(worker_for_key(&log.sets[i], key), Some(3));
    }
}

#[test]
fn worker_for_key_outside_map_is_none() {
    let set = ControlSet::new(0, 0, vec![1, 2]);
    assert_eq!(worker_for_key(&set, 5u64 << 56), None);
    assert_eq!(worker_for_key(&set, 1u64 << 56), Some(2));
}

#[test]
fn fragments_in_either_order_commit_the_same_map() {
    let previous = ControlSet::new(4, 0, identity_map(8));
    let f1 = Control::new(5, 2, ControlInst::Move(Bin(1), 6));
    let f2 = Control::new(5, 2, ControlInst::Move(Bin(2), 7));

    let mut a = ControlSetBuilder::default();
    assert_eq!(a.apply(f1.clone()), Ok(()));
    a.frontier(vec![10]);
    let mut a_early = ControlSetBuilder::default();
    assert_eq!(a_early.apply(f1.clone()), Ok(()));
    assert!(matches!(a_early.build(&previous), Err(ControlError::IncompleteCommit)));
    assert_eq!(a.apply(f2.clone()), Ok(()));
    let sa = a.build(&previous).unwrap();

    let mut b = ControlSetBuilder::default();
    assert_eq!(b.apply(f2), Ok(()));
    b.frontier(vec![10]);
    assert_eq!(b.apply(f1), Ok(()));
    let sb = b.build(&previous).unwrap();

    assert_eq!(sa.map, vec![0, 6, 7, 3, 4, 5, 6, 7]);
    assert_eq!(sa.map, sb.map);
    assert_eq!(sa.sequence, 5);
    assert_eq!(sb.sequence, 5);
}

#[test]
fn commit_needs_exactly_count_fragments() {
    let previous = ControlSet::new(0, 0, identity_map(4));
    let mut b = ControlSetBuilder::default();
    for i in 0..3usize {
        let mut probe = ControlSetBuilder::default();
        for _ in 0..i {
            probe.apply(Control::new(1, 3, ControlInst::NoOp)).unwrap();
        }
        assert!(matches!(probe.build(&previous), Err(ControlError::IncompleteCommit)));
        b.apply(Control::new(1, 3, ControlInst::Move(Bin(i), 3))).unwrap();
    }
    assert_eq!(
        b.apply(Control::new(1, 3, ControlInst::NoOp)),
        Err(ControlError::TooManyFragments)
    );
    let set = b.build(&previous).unwrap();
    assert_eq!(set.map, vec![3, 3, 3, 3]);
}

#[test]
fn noop_control_keeps_the_mapping() {
    let previous = ControlSet::new(0, 0, vec![2, 0, 1]);
    let mut b = ControlSetBuilder::default();
    b.apply(Control::new(1, 1, ControlInst::NoOp)).unwrap();
    assert!(b.instructions.is_empty());
    let set = b.build(&previous).unwrap();
    assert_eq!(set.map, vec![2, 0, 1]);
}

#[test]
fn sequence_mismatch_is_refused_and_leaves_builder() {
    let mut b = ControlSetBuilder::default();
    b.apply(Control::new(1, 2, ControlInst::Move(Bin(0), 1))).unwrap();
    assert_eq!(
        b.apply(Control::new(2, 2, ControlInst::Move(Bin(1), 1))),
        Err(ControlError::SequenceMismatch)
    );
    assert_eq!(b.count, Some(1));
    assert_eq!(b.sequence, Some(1));
    assert_eq!(b.instructions.len(), 1);
}

#[test]
fn zero_count_fragment_is_too_many() {
    let mut b = ControlSetBuilder::default();
    assert_eq!(
        b.apply(Control::new(1, 0, ControlInst::NoOp)),
        Err(ControlError::TooManyFragments)
    );
    assert_eq!(b.count, None);
}

#[test]
fn build_on_empty_builder_is_incomplete() {
    let previous = ControlSet::new(0, 0, vec![0]);
    let b = ControlSetBuilder::default();
    assert!(matches!(b.build(&previous), Err(ControlError::IncompleteCommit)));
}

#[test]
fn move_outside_map_is_refused() {
    let previous = ControlSet::new(0, 0, vec![0, 0]);
    let mut b = ControlSetBuilder::default();
    b.apply(Control::new(1, 1, ControlInst::Move(Bin(2), 1))).unwrap();
    assert!(matches!(b.build(&previous), Err(ControlError::BinOutOfRange)));
}

#[test]
fn map_then_move_apply_in_arrival_order() {
    let previous = ControlSet::new(0, 0, vec![9, 9]);
    let mut b = ControlSetBuilder::default();
    b.apply(Control::new(3, 2, ControlInst::NewMap(vec![1, 1, 1]))).unwrap();
    b.apply(Control::new(3, 2, ControlInst::Move(Bin(2), 0))).unwrap();
    let set = b.build(&previous).unwrap();
    assert_eq!(set.map, vec![1, 1, 0]);
}

#[test]
fn frontier_is_least_collected_time() {
    let previous = ControlSet::new(0, 0, vec![0]);
    let mut b = ControlSetBuilder::default();
    b.apply(Control::new(1, 1, ControlInst::NoOp)).unwrap();
    b.frontier(vec![7, 3]);
    b.frontier(vec![5]);
    assert_eq!(b.frontier, vec![7, 3, 5]);
    let set = b.build(&previous).unwrap();
    assert_eq!(frontier_elements(&set.frontier), vec![3]);
}

#[test]
fn antichain_from_times_keeps_minimum() {
    assert_eq!(frontier_elements(&antichain_from_times(&vec![5, 3, 7])), vec![3]);
    assert_eq!(frontier_elements(&antichain_from_times(&vec![4, 4])), vec![4]);
    assert!(frontier_elements(&antichain_from_times(&vec![])).is_empty());
}

#[test]
fn relocations_list_changed_bins() {
    let r = relocations(&vec![0, 1, 3, 3], &vec![0, 2, 0, 3]);
    assert_eq!(r, vec![(1, 1, 2), (2, 3, 0)]);
    assert!(relocations(&vec![1, 2], &vec![1, 2]).is_empty());
}

#[test]
fn log_refuses_stale_sequence_and_regressed_frontier() {
    let mut log = ControlLog::new(ControlSet::new(1, 10, vec![0]));
    assert_eq!(log.commit(ControlSet::new(1, 20, vec![1])), Err(ControlError::StaleSequence));
    assert_eq!(log.commit(ControlSet::new(2, 5, vec![1])), Err(ControlError::FrontierRegressed));
    assert_eq!(log.sets.len(), 1);
    assert_eq!(log.commit(ControlSet::new(2, 20, vec![1])), Ok(()));
    assert_eq!(log.commit(ControlSet::new(3, 20, vec![2])), Ok(()));
    assert_eq!(log.sets.len(), 3);
}

#[test]
fn log_picks_last_set_in_effect() {
    let mut log = ControlLog::new(ControlSet::new(1, 10, vec![0]));
    log.commit(ControlSet::new(2, 100, vec![1])).unwrap();
    assert_eq!(log.in_effect_at(5), None);
    assert_eq!(log.in_effect_at(10), Some(0));
    assert_eq!(log.in_effect_at(99), Some(0));
    assert_eq!(log.in_effect_at(100), Some(1));
    assert_eq!(log.in_effect_at(1000), Some(1));
}
