use dynamic_scaling::control::{Bin, Control, ControlInst, ControlSet, ControlSetBuilder};
use dynamic_scaling::distribution::relocations;
use dynamic_scaling::frontier::{antichain_from_times, frontier_elements};
use dynamic_scaling::operator::StateMachine;
use dynamic_scaling::state::StateStore;

fn count_fold(_k: u64, v: u64, s: u64) -> (bool, u64, Vec<u64>) {
    let n = s + v;
    (n >= 10, n, vec![n])
}

#[test]
fn moved_bin_state_follows_to_new_owner() {
    let key = 42u64;
    let mut worker3 = StateStore::<u64>::new(4);
    let mut worker0 = StateStore::<u64>::new(4);
    let out = worker3.fold_record(2, key, 7, &|_k: u64, v: u64, s: u64| (false, s + v, vec![s + v]));
    assert_eq!(out, vec![7]);
    assert_eq!(worker3.get(2, key), Some(&7));

    let previous = ControlSet::new(0, 0, vec![0, 1, 3, 3]);
    let mut b = ControlSetBuilder::default();
    b.apply(Control::new(1, 1, ControlInst::Move(Bin(2), 0))).unwrap();
    b.frontier(vec![100]);
    let next = b.build(&previous).unwrap();
    assert_eq!(frontier_elements(&next.frontier), vec![100]);
    let moves = relocations(&previous.map, &next.map);
    assert_eq!(moves, vec![(2, 3, 0)]);

    let (bin, _from, _to) = moves[0];
    let state = worker3.take_bin(bin);
    assert!(worker0.install_bin(bin, state).is_ok());
    assert_eq!(worker0.get(2, key), Some(&7));
    assert_eq!(worker3.get(2, key), None);
}

#[test]
fn install_into_occupied_bin_hands_state_back() {
    let mut a = StateStore::<u64>::new(2);
    let mut b = StateStore::<u64>::new(2);
    a.fold_record(1, 5, 3, &count_fold);
    b.fold_record(1, 6, 4, &count_fold);
    let taken = a.take_bin(1);
    let back = b.install_bin(1, taken).unwrap_err();
    assert_eq!(back.get(&5), Some(&3));
    assert_eq!(b.get(1, 6), Some(&4));
    assert_eq!(b.get(1, 5), None);
}

#[test]
fn fold_removes_state_when_asked() {
    let mut s = StateStore::<u64>::new(1);
    assert_eq!(s.fold_record(0, 1, 4, &count_fold), vec![4]);
    assert_eq!(s.fold_record(0, 1, 5, &count_fold), vec![9]);
    assert_eq!(s.get(0, 1), Some(&9));
    assert_eq!(s.fold_record(0, 1, 1, &count_fold), vec![10]);
    assert_eq!(s.get(0, 1), None);
    assert_eq!(s.fold_record(0, 1, 2, &count_fold), vec![2]);
}

#[test]
fn records_wait_until_their_time_closes() {
    let mut m = StateMachine::<u64, u64>::new(4);
    let f10 = antichain_from_times(&vec![10]);
    assert!(m.accept(&f10, 12, vec![(0, 1, (7, 2))]).is_none());
    assert!(m.accept(&f10, 11, vec![(0, 1, (7, 1))]).is_none());
    assert!(m.accept(&f10, 12, vec![(0, 1, (8, 5))]).is_none());
    let now = m.accept(&f10, 10, vec![(0, 3, (9, 4))]).unwrap();
    assert_eq!(now.len(), 1);
    assert_eq!(m.pending.len(), 2);
    assert_eq!(m.pending[0].0, 11);
    assert_eq!(m.pending[1].0, 12);
    assert_eq!(m.pending[1].1.len(), 2);

    assert!(m.release(&f10).is_empty());
    assert!(m.release(&antichain_from_times(&vec![11])).is_empty());
    let ready = m.release(&antichain_from_times(&vec![12]));
    assert_eq!(ready.len(), 1);
    assert_eq!(ready[0].0, 11);
    assert_eq!(m.pending.len(), 1);
    let ready = m.release(&antichain_from_times(&vec![]));
    assert_eq!(ready.len(), 1);
    assert_eq!(ready[0].0, 12);
    assert!(m.pending.is_empty());
}

#[test]
fn each_record_is_folded_once_in_order() {
    let mut m = StateMachine::<u64, u64>::new(2);
    let out = m.process(vec![(0, 1, (7, 2)), (0, 1, (7, 3)), (0, 0, (8, 9)), (0, 1, (7, 6))], &count_fold);
    assert_eq!(out, vec![2, 5, 9, 11]);
    assert_eq!(m.states.get(1, 7), None);
    assert_eq!(m.states.get(0, 8), Some(&9));
}
