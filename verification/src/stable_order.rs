//! What it means to put a sequence in order without disturbing ties.
//!
//! Items are ranked by an integer key, lower first. A stable sort of a
//! sequence is in order by key, and the items of each key stand in it as
//! they stood in the source. There is exactly one such sequence.

use vstd::prelude::*;

verus! {

/// No item stands before one with a lower key.
pub open spec fn sorted_by_key<T>(s: Seq<T>, key: spec_fn(T) -> int) -> bool {
    forall|i: int, j: int| #![trigger s[i], s[j]] 0 <= i < j < s.len() ==> key(s[i]) <= key(s[j])
}

/// The test "has key `k`".
pub open spec fn has_key<T>(key: spec_fn(T) -> int, k: int) -> spec_fn(T) -> bool {
    |x: T| key(x) == k
}

/// The items of `s` with key `k`, in the order in which `s` holds them.
pub open spec fn with_key<T>(s: Seq<T>, key: spec_fn(T) -> int, k: int) -> Seq<T> {
    s.filter(has_key(key, k))
}

/// `sorted` holds the items of `source` in order by key, and items with the
/// same key in the order in which `source` holds them.
pub open spec fn is_stable_sort_of<T>(sorted: Seq<T>, source: Seq<T>, key: spec_fn(T) -> int) -> bool {
    &&& sorted_by_key(sorted, key)
    &&& sorted.len() == source.len()
    &&& forall|k: int| #[trigger] with_key(sorted, key, k) == with_key(source, key, k)
}

/// An item added at the end joins the end of its own key's items and of no
/// other's.
pub proof fn lemma_with_key_push<T>(s: Seq<T>, x: T, key: spec_fn(T) -> int, k: int)
    ensures
        with_key(s.push(x), key, k) == if key(x) == k {
            with_key(s, key, k).push(x)
        } else {
            with_key(s, key, k)
        },
{
    reveal(Seq::filter);
    assert(s.push(x).drop_last() =~= s);
}

/// Every item among those with key `k` has key `k` and comes from `s`.
pub proof fn lemma_with_key_members<T>(s: Seq<T>, key: spec_fn(T) -> int, k: int)
    ensures
        forall|i: int|
            0 <= i < with_key(s, key, k).len() ==> key(#[trigger] with_key(s, key, k)[i]) == k
                && s.contains(with_key(s, key, k)[i]),
{
    let part = with_key(s, key, k);
    assert forall|i: int| 0 <= i < part.len() implies key(#[trigger] part[i]) == k && s.contains(
        part[i],
    ) by {
        s.lemma_filter_pred(has_key(key, k), i);
        assert(part.contains(part[i]));
        s.lemma_filter_contains_rev(has_key(key, k), part[i]);
    }
}

/// An item of `s` is among the items of its key.
pub proof fn lemma_with_key_holds<T>(s: Seq<T>, key: spec_fn(T) -> int, i: int)
    requires
        0 <= i < s.len(),
    ensures
        with_key(s, key, key(s[i])).contains(s[i]),
{
    s.lemma_filter_contains(has_key(key, key(s[i])), i);
}

/// Where no item has key `k`, there are no items with key `k`.
pub proof fn lemma_with_key_none<T>(s: Seq<T>, key: spec_fn(T) -> int, k: int)
    requires
        forall|i: int| 0 <= i < s.len() ==> key(#[trigger] s[i]) != k,
    ensures
        with_key(s, key, k) == Seq::<T>::empty(),
{
    let part = with_key(s, key, k);
    if part.len() > 0 {
        lemma_with_key_members(s, key, k);
        let x = part[0];
        assert(s.contains(x));
        let i = choose|i: int| 0 <= i < s.len() && s[i] == x;
        assert(key(s[i]) != k);
    }
    assert(part =~= Seq::<T>::empty());
}

/// The items with key `k` of two sequences joined are those of the first,
/// then those of the second.
pub proof fn lemma_with_key_concat<T>(a: Seq<T>, b: Seq<T>, key: spec_fn(T) -> int, k: int)
    ensures
        with_key(a + b, key, k) == with_key(a, key, k) + with_key(b, key, k),
{
    Seq::filter_distributes_over_add(a, b, has_key(key, k));
}

/// A stable sort holds the very items of its source.
pub proof fn lemma_stable_sort_members<T>(sorted: Seq<T>, source: Seq<T>, key: spec_fn(T) -> int)
    requires
        is_stable_sort_of(sorted, source, key),
    ensures
        forall|x: T| sorted.contains(x) <==> source.contains(x),
{
    assert forall|x: T| sorted.contains(x) implies source.contains(x) by {
        let i = choose|i: int| 0 <= i < sorted.len() && sorted[i] == x;
        lemma_with_key_holds(sorted, key, i);
        assert(with_key(sorted, key, key(x)) == with_key(source, key, key(x)));
        source.lemma_filter_contains_rev(has_key(key, key(x)), x);
    }
    assert forall|x: T| source.contains(x) implies sorted.contains(x) by {
        let i = choose|i: int| 0 <= i < source.len() && source[i] == x;
        lemma_with_key_holds(source, key, i);
        assert(with_key(sorted, key, key(x)) == with_key(source, key, key(x)));
        sorted.lemma_filter_contains_rev(has_key(key, key(x)), x);
    }
}

/// One step of sorting by insertion. `front + back` is the stable sort of
/// `done`; `x` is not more pressing than the last of `front` and is more
/// pressing than every item of `back`. Then `x` between the two is the
/// stable sort of `done` with `x` added at its end.
pub proof fn lemma_stable_insert<T>(
    front: Seq<T>,
    back: Seq<T>,
    x: T,
    done: Seq<T>,
    key: spec_fn(T) -> int,
)
    requires
        is_stable_sort_of(front + back, done, key),
        front.len() > 0 ==> key(front.last()) <= key(x),
        forall|j: int| 0 <= j < back.len() ==> key(x) < key(#[trigger] back[j]),
    ensures
        is_stable_sort_of(front + seq![x] + back, done.push(x), key),
{
    let before = front + back;
    let after = front + seq![x] + back;
    assert forall|i: int, j: int| 0 <= i < j < after.len() implies key(after[i]) <= key(
        after[j],
    ) by {
        let n = front.len() as int;
        if j < n {
            assert(after[i] == before[i] && after[j] == before[j]);
        } else if j == n {
            assert(after[i] == before[i] && front.last() == before[n - 1]);
            assert(key(before[i]) <= key(before[n - 1]));
        } else if i < n {
            assert(after[i] == before[i] && after[j] == before[j - 1]);
        } else if i == n {
            assert(after[j] == back[j - n - 1]);
        } else {
            assert(after[i] == before[i - 1] && after[j] == before[j - 1]);
        }
    }
    assert forall|k: int| #[trigger] with_key(after, key, k) == with_key(done.push(x), key, k) by {
        lemma_with_key_concat(front + seq![x], back, key, k);
        lemma_with_key_concat(front, seq![x], key, k);
        lemma_with_key_concat(front, back, key, k);
        lemma_with_key_push(done, x, key, k);
        lemma_with_key_push(Seq::<T>::empty(), x, key, k);
        assert(Seq::<T>::empty().push(x) =~= seq![x]);
        lemma_with_key_none(Seq::<T>::empty(), key, k);
        assert(with_key(before, key, k) == with_key(done, key, k));
        if key(x) == k {
            lemma_with_key_none(back, key, k);
            assert(with_key(after, key, k) =~= with_key(front, key, k).push(x));
            assert(with_key(before, key, k) =~= with_key(front, key, k));
        } else {
            assert(with_key(seq![x], key, k) =~= Seq::<T>::empty());
            assert(with_key(after, key, k) =~= with_key(before, key, k));
        }
    }
}

/// There is one stable sort: two sequences in order that keep the items of
/// each key in the same order are the same sequence.
pub proof fn lemma_stable_sort_unique<T>(a: Seq<T>, b: Seq<T>, key: spec_fn(T) -> int)
    requires
        sorted_by_key(a, key),
        sorted_by_key(b, key),
        forall|k: int| #[trigger] with_key(a, key, k) == with_key(b, key, k),
    ensures
        a == b,
    decreases a.len(),
{
    if a.len() == 0 {
        if b.len() > 0 {
            lemma_with_key_holds(b, key, b.len() - 1);
            let k = key(b.last());
            assert(with_key(a, key, k) == with_key(b, key, k));
            lemma_with_key_none(a, key, k);
        }
        assert(a =~= b);
    } else {
        let x = a.last();
        let k = key(x);
        let a0 = a.drop_last();
        assert(a =~= a0.push(x));
        lemma_with_key_push(a0, x, key, k);
        assert(with_key(a, key, k) == with_key(b, key, k));
        assert(with_key(b, key, k).last() == x);
        lemma_with_key_members(b, key, k);
        assert(b.contains(x));
        let y = b.last();
        let k2 = key(y);
        let b0 = b.drop_last();
        assert(b =~= b0.push(y));
        lemma_with_key_push(b0, y, key, k2);
        assert(with_key(a, key, k2) == with_key(b, key, k2));
        assert(with_key(a, key, k2).last() == y);
        lemma_with_key_members(a, key, k2);
        assert(a.contains(y));
        let i = choose|i: int| 0 <= i < a.len() && a[i] == y;
        assert(key(a[i]) <= key(a[a.len() - 1]));
        let j = choose|j: int| 0 <= j < b.len() && b[j] == x;
        assert(key(b[j]) <= key(b[b.len() - 1]));
        assert(k == k2);
        assert(x == y);
        assert forall|m: int| #[trigger] with_key(a0, key, m) == with_key(b0, key, m) by {
            lemma_with_key_push(a0, x, key, m);
            lemma_with_key_push(b0, y, key, m);
            assert(with_key(a, key, m) == with_key(b, key, m));
            if m == k {
                assert(with_key(a0, key, m) =~= with_key(a, key, m).drop_last());
                assert(with_key(b0, key, m) =~= with_key(b, key, m).drop_last());
            }
        }
        assert(sorted_by_key(a0, key)) by {
            assert forall|p: int, q: int| 0 <= p < q < a0.len() implies key(a0[p]) <= key(
                a0[q],
            ) by {
                assert(a0[p] == a[p] && a0[q] == a[q]);
            }
        }
        assert(sorted_by_key(b0, key)) by {
            assert forall|p: int, q: int| 0 <= p < q < b0.len() implies key(b0[p]) <= key(
                b0[q],
            ) by {
                assert(b0[p] == b[p] && b0[q] == b[q]);
            }
        }
        lemma_stable_sort_unique(a0, b0, key);
    }
}

} // verus!
