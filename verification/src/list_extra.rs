//! Two moves on lists that keep every item's place among its neighbours.

use std::collections::VecDeque;
use vstd::prelude::*;

verus! {

/// `at` is where `condition` first holds in `list`: it has failed on every
/// item before `at`, and has held on the item at `at` unless that is the
/// end of the list.
pub open spec fn first_match_at<T, F: Fn(&T) -> bool>(condition: F, list: Seq<T>, at: int) -> bool {
    &&& 0 <= at <= list.len()
    &&& forall|i: int| 0 <= i < at ==> call_ensures(condition, (&#[trigger] list[i],), false)
    &&& at < list.len() ==> call_ensures(condition, (&list[at],), true)
}

/// Moves all of `a` to the front of `b`.
pub fn prepend<T>(a: &mut VecDeque<T>, b: &mut VecDeque<T>)
    ensures
        final(b)@ == old(a)@ + old(b)@,
        final(a)@ == Seq::<T>::empty(),
{
    a.append(b);
    b.append(a);
    assert(final(b)@ =~= old(a)@ + old(b)@);
}

/// Moves all of `items` into `ll`, just before the first item of `ll` on
/// which `condition` holds, or to the end where it holds on none.
///
/// `condition` is asked of the items of `ll` from the front, and of none
/// behind the first on which it holds.
pub fn insert_just_before<T>(
    ll: &mut VecDeque<T>,
    items: &mut VecDeque<T>,
    condition: impl Fn(&T) -> bool,
)
    requires
        forall|i: int| 0 <= i < old(ll)@.len() ==> call_requires(condition, (&#[trigger] old(ll)@[i],)),
    ensures
        final(items)@ == Seq::<T>::empty(),
        exists|at: int| #[trigger]
            first_match_at(condition, old(ll)@, at) && final(ll)@ == old(ll)@.take(at) + old(
                items,
            )@ + old(ll)@.skip(at),
{
    let ghost source = ll@;
    let ghost mut at: int = 0;
    let mut checked: VecDeque<T> = VecDeque::new();
    assert(checked@ + ll@ =~= source);
    loop
        invariant
            0 <= at <= source.len(),
            checked@ == source.take(at),
            ll@ == source.skip(at),
            items@ == old(items)@,
            forall|i: int| 0 <= i < source.len() ==> call_requires(condition, (&#[trigger] source[i],)),
            forall|i: int| 0 <= i < at ==> call_ensures(condition, (&#[trigger] source[i],), false),
        ensures
            first_match_at(condition, source, at),
        decreases source.len() - at,
    {
        match ll.pop_front() {
            Some(t) => {
                assert(t == source[at]);
                if condition(&t) {
                    ll.push_front(t);
                    assert(ll@ =~= source.skip(at));
                    break ;
                } else {
                    checked.push_back(t);
                    proof {
                        assert(checked@ =~= source.take(at + 1));
                        assert(ll@ =~= source.skip(at + 1));
                        at = at + 1;
                    }
                }
            },
            None => {
                break ;
            },
        }
    }
    checked.append(items);
    prepend(&mut checked, ll);
    assert(first_match_at(condition, source, at));
}

} // verus!
