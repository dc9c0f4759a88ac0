//! Logical-time frontiers, held in timely's `Antichain` over `u64` times.
use timely::progress::frontier::Antichain;
use vstd::prelude::*;

verus! {

#[verifier::external_type_specification]
#[verifier::external_body]
#[verifier::reject_recursive_types(T)]
pub struct ExAntichain<T>(Antichain<T>);

/// The elements of an antichain, in the order in which it stores them.
pub uninterp spec fn antichain_elements(a: Antichain<u64>) -> Seq<u64>;

/// Whether some element of `elems` is at most `t`.
pub open spec fn some_at_most(elems: Seq<u64>, t: u64) -> bool {
    exists|i: int| 0 <= i < elems.len() && elems[i] <= t
}

/// Whether some element of `elems` is strictly below `t`.
pub open spec fn some_below(elems: Seq<u64>, t: u64) -> bool {
    exists|i: int| 0 <= i < elems.len() && elems[i] < t
}

/// The smallest element of a non-empty sequence.
pub open spec fn min_of(s: Seq<u64>) -> u64
    recommends
        s.len() > 0,
    decreases s.len(),
{
    if s.len() <= 1 {
        s[0]
    } else {
        let m = min_of(s.drop_last());
        if s.last() < m {
            s.last()
        } else {
            m
        }
    }
}

/// The antichain of minimal elements of a set of `u64` times: empty, or the least time alone.
pub open spec fn minimal_times(s: Seq<u64>) -> Seq<u64> {
    if s.len() == 0 {
        Seq::empty()
    } else {
        seq![min_of(s)]
    }
}

/// Relies on `Antichain::new` of timely: the new antichain is empty.
#[verifier::external_body]
pub(crate) fn antichain_new() -> (r: Antichain<u64>)
    ensures
        antichain_elements(r) == Seq::<u64>::empty(),
{
    Antichain::new()
}

/// Relies on `Antichain::insert` of timely: an element that some present element is at most
/// is refused; otherwise the present elements that it is at most are dropped and it is pushed.
#[verifier::external_body]
pub(crate) fn antichain_insert(a: &mut Antichain<u64>, t: u64) -> (r: bool)
    ensures
        r == !some_at_most(antichain_elements(*old(a)), t),
        r ==> antichain_elements(*final(a)) == antichain_elements(*old(a)).filter(
            |x: u64| !(t <= x),
        ).push(t),
        !r ==> antichain_elements(*final(a)) == antichain_elements(*old(a)),
{
    a.insert(t)
}

/// Relies on `Antichain::less_than` of timely: whether some element is strictly below `t`.
#[verifier::external_body]
pub(crate) fn antichain_less_than(a: &Antichain<u64>, t: u64) -> (r: bool)
    ensures
        r == some_below(antichain_elements(*a), t),
{
    a.less_than(&t)
}

/// Relies on `Antichain::less_equal` of timely: whether some element is at most `t`.
#[verifier::external_body]
pub(crate) fn antichain_less_equal(a: &Antichain<u64>, t: u64) -> (r: bool)
    ensures
        r == some_at_most(antichain_elements(*a), t),
{
    a.less_equal(&t)
}

/// Relies on `Antichain::elements` of timely: the stored elements, copied out in order.
#[verifier::external_body]
pub(crate) fn antichain_to_vec(a: &Antichain<u64>) -> (r: Vec<u64>)
    ensures
        r@ == antichain_elements(*a),
{
    a.elements().to_vec()
}

/// Builds the antichain of the minimal elements of `times`, inserting them in order.
pub fn antichain_from_times(times: &Vec<u64>) -> (r: Antichain<u64>)
    ensures
        antichain_elements(r) == minimal_times(times@),
{
    let mut a = antichain_new();
    let mut i: usize = 0;
    while i < times.len()
        invariant
            i <= times.len(),
            antichain_elements(a) == minimal_times(times@.subrange(0, i as int)),
        decreases times.len() - i,
    {
        let t = times[i];
        let ghost before = antichain_elements(a);
        let ghost prefix = times@.subrange(0, i as int);
        let ghost next = times@.subrange(0, i as int + 1);
        antichain_insert(&mut a, t);
        proof {
            assert(next.drop_last() =~= prefix);
            assert(next.last() == t);
            reveal_with_fuel(Seq::filter, 2);
            if prefix.len() > 0 {
                assert(before == seq![min_of(prefix)]);
                assert(before.drop_last() =~= Seq::<u64>::empty());
            }
            assert(antichain_elements(a) =~= minimal_times(next));
        }
        i = i + 1;
    }
    proof {
        assert(times@.subrange(0, times.len() as int) =~= times@);
    }
    a
}

/// Copies out the elements of a frontier.
pub fn frontier_elements(a: &Antichain<u64>) -> (r: Vec<u64>)
    ensures
        r@ == antichain_elements(*a),
{
    antichain_to_vec(a)
}

} // verus!
