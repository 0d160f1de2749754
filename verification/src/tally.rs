//! Counting over sequences: each item counts for a number, and a sequence
//! for the sum of its items. The sum does not depend on the order of the
//! items, so a stable sort keeps it.

use crate::stable_order::{
    is_stable_sort_of, lemma_with_key_none, lemma_with_key_push, sorted_by_key, with_key,
};
use vstd::prelude::*;

verus! {

/// What the items of `s` count for, taken together.
pub open spec fn tally<T>(s: Seq<T>, weight: spec_fn(T) -> nat) -> nat
    decreases s.len(),
{
    if s.len() == 0 {
        0
    } else {
        tally(s.drop_last(), weight) + weight(s.last())
    }
}

/// Two sequences joined count for what they count for apart.
pub proof fn lemma_tally_concat<T>(a: Seq<T>, b: Seq<T>, weight: spec_fn(T) -> nat)
    ensures
        tally(a + b, weight) == tally(a, weight) + tally(b, weight),
    decreases b.len(),
{
    if b.len() == 0 {
        assert(a + b =~= a);
    } else {
        assert((a + b).drop_last() =~= a + b.drop_last());
        lemma_tally_concat(a, b.drop_last(), weight);
    }
}

/// A sequence of one item counts for what the item counts for.
pub proof fn lemma_tally_one<T>(x: T, weight: spec_fn(T) -> nat)
    ensures
        tally(seq![x], weight) == weight(x),
{
    assert(seq![x].drop_last() =~= Seq::<T>::empty());
    assert(tally(Seq::<T>::empty(), weight) == 0);
}

/// A sequence counts for its item at `i` and for the rest.
pub proof fn lemma_tally_remove<T>(s: Seq<T>, i: int, weight: spec_fn(T) -> nat)
    requires
        0 <= i < s.len(),
    ensures
        tally(s, weight) == tally(s.remove(i), weight) + weight(s[i]),
{
    let front = s.take(i);
    let back = s.skip(i + 1);
    assert(s =~= front + seq![s[i]] + back);
    assert(s.remove(i) =~= front + back);
    lemma_tally_concat(front + seq![s[i]], back, weight);
    lemma_tally_concat(front, seq![s[i]], weight);
    lemma_tally_concat(front, back, weight);
    lemma_tally_one(s[i], weight);
}

/// Sequences whose items count alike, place by place, count alike.
pub proof fn lemma_tally_alike<A, B>(
    a: Seq<A>,
    b: Seq<B>,
    weight_a: spec_fn(A) -> nat,
    weight_b: spec_fn(B) -> nat,
)
    requires
        a.len() == b.len(),
        forall|i: int| 0 <= i < a.len() ==> weight_a(#[trigger] a[i]) == weight_b(b[i]),
    ensures
        tally(a, weight_a) == tally(b, weight_b),
    decreases a.len(),
{
    if a.len() > 0 {
        assert forall|i: int| 0 <= i < a.drop_last().len() implies weight_a(
            #[trigger] a.drop_last()[i],
        ) == weight_b(b.drop_last()[i]) by {
            assert(a.drop_last()[i] == a[i]);
        }
        assert(weight_a(a[a.len() - 1]) == weight_b(b[a.len() - 1]));
        lemma_tally_alike(a.drop_last(), b.drop_last(), weight_a, weight_b);
    }
}

/// A sequence of items that count for nothing counts for nothing.
pub proof fn lemma_tally_nothing<T>(s: Seq<T>, weight: spec_fn(T) -> nat)
    requires
        forall|i: int| 0 <= i < s.len() ==> weight(#[trigger] s[i]) == 0,
    ensures
        tally(s, weight) == 0,
    decreases s.len(),
{
    if s.len() > 0 {
        assert forall|i: int| 0 <= i < s.drop_last().len() implies weight(
            #[trigger] s.drop_last()[i],
        ) == 0 by {
            assert(s.drop_last()[i] == s[i]);
        }
        assert(weight(s[s.len() - 1]) == 0);
        lemma_tally_nothing(s.drop_last(), weight);
    }
}

/// The place of the last item of key `k` in `s`. Without that item, the
/// items of key `k` are as before but for their last, and those of every
/// other key are as before.
proof fn lemma_last_with_key<T>(s: Seq<T>, key: spec_fn(T) -> int, k: int) -> (at: int)
    requires
        with_key(s, key, k).len() > 0,
    ensures
        0 <= at < s.len(),
        s[at] == with_key(s, key, k).last(),
        with_key(s.remove(at), key, k) == with_key(s, key, k).drop_last(),
        forall|other: int|
            other != k ==> #[trigger] with_key(s.remove(at), key, other) == with_key(s, key, other),
    decreases s.len(),
{
    if s.len() == 0 {
        lemma_with_key_none(s, key, k);
        0
    } else {
        let rest = s.drop_last();
        let x = s.last();
        assert(s =~= rest.push(x));
        lemma_with_key_push(rest, x, key, k);
        if key(x) == k {
            let at = s.len() - 1;
            assert(s.remove(at) =~= rest);
            assert(with_key(s, key, k).drop_last() =~= with_key(rest, key, k));
            assert forall|other: int| other != k implies #[trigger] with_key(
                s.remove(at),
                key,
                other,
            ) == with_key(s, key, other) by {
                lemma_with_key_push(rest, x, key, other);
            }
            at
        } else {
            let at = lemma_last_with_key(rest, key, k);
            assert(s.remove(at) =~= rest.remove(at).push(x));
            lemma_with_key_push(rest.remove(at), x, key, k);
            assert forall|other: int| other != k implies #[trigger] with_key(
                s.remove(at),
                key,
                other,
            ) == with_key(s, key, other) by {
                lemma_with_key_push(rest.remove(at), x, key, other);
                lemma_with_key_push(rest, x, key, other);
            }
            at
        }
    }
}

/// A stable sort counts for what its source counts for.
pub proof fn lemma_stable_sort_tally<T>(
    sorted: Seq<T>,
    source: Seq<T>,
    key: spec_fn(T) -> int,
    weight: spec_fn(T) -> nat,
)
    requires
        is_stable_sort_of(sorted, source, key),
    ensures
        tally(sorted, weight) == tally(source, weight),
    decreases sorted.len(),
{
    if sorted.len() > 0 {
        let x = sorted.last();
        let k = key(x);
        let rest = sorted.drop_last();
        assert(sorted =~= rest.push(x));
        lemma_with_key_push(rest, x, key, k);
        assert(with_key(sorted, key, k) == with_key(source, key, k));
        let at = lemma_last_with_key(source, key, k);
        let others = source.remove(at);
        assert(sorted_by_key(rest, key)) by {
            assert forall|i: int, j: int| 0 <= i < j < rest.len() implies key(rest[i]) <= key(
                rest[j],
            ) by {
                assert(rest[i] == sorted[i] && rest[j] == sorted[j]);
            }
        }
        assert forall|m: int| #[trigger] with_key(rest, key, m) == with_key(others, key, m) by {
            lemma_with_key_push(rest, x, key, m);
            assert(with_key(sorted, key, m) == with_key(source, key, m));
            if m == k {
                assert(with_key(rest, key, m) =~= with_key(sorted, key, m).drop_last());
            }
        }
        lemma_stable_sort_tally(rest, others, key, weight);
        lemma_tally_remove(source, at, weight);
    }
}

} // verus!
