//! Stable sorting.
//!
//! Connectors order messages by their source timestamps, keeping the
//! source order between equal keys. The sort is specified as insertion
//! from the left: each element goes after every earlier element whose
//! key is not greater, which is exactly a stable sort.

use vstd::prelude::*;

verus! {

/// `x` inserted into `sorted` after every element `leq` to it.
pub open spec fn insert_sorted<T>(leq: spec_fn(T, T) -> bool, sorted: Seq<T>, x: T) -> Seq<T>
    decreases sorted.len(),
{
    if sorted.len() == 0 {
        seq![x]
    } else if leq(sorted.last(), x) {
        sorted.push(x)
    } else {
        insert_sorted(leq, sorted.drop_last(), x).push(sorted.last())
    }
}

/// `s` sorted by `leq`, stably: elements are inserted left to right.
pub open spec fn stable_sort_by<T>(leq: spec_fn(T, T) -> bool, s: Seq<T>) -> Seq<T>
    decreases s.len(),
{
    if s.len() == 0 {
        s
    } else {
        insert_sorted(leq, stable_sort_by(leq, s.drop_last()), s.last())
    }
}

/// Whether `s` is ordered by `leq`, neighbour by neighbour.
pub open spec fn sorted_by<T>(leq: spec_fn(T, T) -> bool, s: Seq<T>) -> bool {
    forall|i: int| 0 < i < s.len() ==> leq(#[trigger] s[i - 1], s[i])
}

/// Where the scan found the insertion point `j`, the recursive insert
/// lands there too.
pub proof fn lemma_insert_at<T>(leq: spec_fn(T, T) -> bool, sorted: Seq<T>, x: T, j: int)
    requires
        0 <= j <= sorted.len(),
        forall|k: int| j <= k < sorted.len() ==> !leq(#[trigger] sorted[k], x),
        j > 0 ==> leq(sorted[j - 1], x),
    ensures
        insert_sorted(leq, sorted, x) == sorted.take(j) + seq![x] + sorted.skip(j),
    decreases sorted.len(),
{
    if sorted.len() == 0 {
        assert(insert_sorted(leq, sorted, x) =~= sorted.take(0) + seq![x] + sorted.skip(0));
    } else if leq(sorted.last(), x) {
        assert(j == sorted.len());
        assert(sorted.take(j) =~= sorted);
        assert(insert_sorted(leq, sorted, x) =~= sorted.take(j) + seq![x] + sorted.skip(j));
    } else {
        lemma_insert_at(leq, sorted.drop_last(), x, j);
        assert(insert_sorted(leq, sorted, x) =~= sorted.take(j) + seq![x] + sorted.skip(j)) by {
            assert(sorted.drop_last().take(j) =~= sorted.take(j));
            assert(sorted.drop_last().skip(j).push(sorted.last()) =~= sorted.skip(j));
            assert(insert_sorted(leq, sorted, x) == insert_sorted(
                leq,
                sorted.drop_last(),
                x,
            ).push(sorted.last()));
        }
    }
}

/// A total order's insert keeps a sorted sequence sorted.
pub proof fn lemma_insert_keeps_sorted<T>(leq: spec_fn(T, T) -> bool, sorted: Seq<T>, x: T)
    requires
        sorted_by(leq, sorted),
        forall|a: T, b: T| #[trigger] leq(a, b) || #[trigger] leq(b, a),
        forall|a: T, b: T, c: T| #![trigger leq(a, b), leq(b, c)] leq(a, b) && leq(b, c) ==> leq(a, c),
    ensures
        sorted_by(leq, insert_sorted(leq, sorted, x)),
    decreases sorted.len(),
{
    let r = insert_sorted(leq, sorted, x);
    if sorted.len() == 0 {
    } else if leq(sorted.last(), x) {
        assert forall|i: int| 0 < i < r.len() implies leq(#[trigger] r[i - 1], r[i]) by {
            if i < sorted.len() {
                assert(leq(sorted[i - 1], sorted[i]));
            }
        }
    } else {
        assert(sorted_by(leq, sorted.drop_last())) by {
            assert(forall|i: int|
                0 < i < sorted.len() - 1 ==> leq(#[trigger] sorted.drop_last()[i - 1],
                    sorted.drop_last()[i]) == leq(sorted[i - 1], sorted[i]));
        }
        lemma_insert_keeps_sorted(leq, sorted.drop_last(), x);
        let inner = insert_sorted(leq, sorted.drop_last(), x);
        assert forall|i: int| 0 < i < r.len() implies leq(#[trigger] r[i - 1], r[i]) by {
            if i < inner.len() {
                assert(leq(inner[i - 1], inner[i]));
            } else {
                // The pushed last element follows everything in `inner`:
                // it is `leq`-above the dropped prefix and above `x`.
                assert(r[i] == sorted.last());
                lemma_sorted_all_leq_last(leq, sorted);
                assert(forall|k: int|
                    0 <= k < sorted.drop_last().len() ==> leq(
                        #[trigger] sorted.drop_last()[k],
                        sorted.last(),
                    ));
                lemma_insert_last_below(leq, sorted.drop_last(), x, sorted.last());
            }
        }
    }
}

/// In a sorted sequence, everything is `leq` the last element.
pub proof fn lemma_sorted_all_leq_last<T>(leq: spec_fn(T, T) -> bool, s: Seq<T>)
    requires
        sorted_by(leq, s),
        s.len() > 0,
        forall|a: T, b: T| #[trigger] leq(a, b) || #[trigger] leq(b, a),
        forall|a: T, b: T, c: T| #![trigger leq(a, b), leq(b, c)] leq(a, b) && leq(b, c) ==> leq(a, c),
    ensures
        forall|k: int| 0 <= k < s.len() ==> leq(#[trigger] s[k], s.last()),
    decreases s.len(),
{
    if s.len() > 1 {
        assert(sorted_by(leq, s.drop_last())) by {
            assert(forall|i: int|
                0 < i < s.len() - 1 ==> leq(#[trigger] s.drop_last()[i - 1], s.drop_last()[i])
                    == leq(s[i - 1], s[i]));
        }
        lemma_sorted_all_leq_last(leq, s.drop_last());
        assert forall|k: int| 0 <= k < s.len() implies leq(#[trigger] s[k], s.last()) by {
            if k < s.len() - 1 {
                assert(s.drop_last()[k] == s[k]);
                assert(leq(s[k], s.drop_last().last()));
                assert(s.drop_last().last() == s[s.len() - 2]);
                assert(leq(s[s.len() - 2], s.last()));
            }
        }
    }
}

/// When every element of `sorted` and `x` itself are `leq` a bound
/// `y`, so is the last element of the insert.
pub proof fn lemma_insert_last_below<T>(leq: spec_fn(T, T) -> bool, sorted: Seq<T>, x: T, y: T)
    requires
        forall|a: T, b: T| #[trigger] leq(a, b) || #[trigger] leq(b, a),
        forall|k: int| 0 <= k < sorted.len() ==> leq(#[trigger] sorted[k], y),
        !leq(y, x),
    ensures
        insert_sorted(leq, sorted, x).len() > 0,
        leq(insert_sorted(leq, sorted, x).last(), y),
    decreases sorted.len(),
{
    if sorted.len() == 0 {
    } else if leq(sorted.last(), x) {
    } else {
        let _ = insert_sorted(leq, sorted.drop_last(), x);
    }
}

/// A stable sort over a total order yields a sorted sequence.
pub proof fn lemma_stable_sort_sorted<T>(leq: spec_fn(T, T) -> bool, s: Seq<T>)
    requires
        forall|a: T, b: T| #[trigger] leq(a, b) || #[trigger] leq(b, a),
        forall|a: T, b: T, c: T| #![trigger leq(a, b), leq(b, c)] leq(a, b) && leq(b, c) ==> leq(a, c),
    ensures
        sorted_by(leq, stable_sort_by(leq, s)),
    decreases s.len(),
{
    if s.len() > 0 {
        lemma_stable_sort_sorted(leq, s.drop_last());
        lemma_insert_keeps_sorted(leq, stable_sort_by(leq, s.drop_last()), s.last());
    }
}

/// The sort keeps exactly the elements of its input.
pub proof fn lemma_insert_multiset<T>(leq: spec_fn(T, T) -> bool, sorted: Seq<T>, x: T)
    ensures
        insert_sorted(leq, sorted, x).to_multiset() == sorted.push(x).to_multiset(),
    decreases sorted.len(),
{
    broadcast use vstd::seq_lib::group_to_multiset_ensures;

    if sorted.len() == 0 {
        assert(insert_sorted(leq, sorted, x) =~= sorted.push(x));
    } else if leq(sorted.last(), x) {
    } else {
        lemma_insert_multiset(leq, sorted.drop_last(), x);
        assert(insert_sorted(leq, sorted, x).to_multiset() =~= sorted.push(x).to_multiset()) by {
            assert(insert_sorted(leq, sorted, x) == insert_sorted(
                leq,
                sorted.drop_last(),
                x,
            ).push(sorted.last()));
            assert(sorted.drop_last().push(x).push(sorted.last()).to_multiset()
                =~= sorted.push(x).to_multiset()) by {
                lemma_push_push_multiset(sorted.drop_last(), x, sorted.last());
                assert(sorted.drop_last().push(sorted.last()) =~= sorted);
            }
        }
    }
}

/// Pushing two elements gives the same multiset in either order.
pub proof fn lemma_push_push_multiset<T>(s: Seq<T>, a: T, b: T)
    ensures
        s.push(a).push(b).to_multiset() == s.push(b).push(a).to_multiset(),
{
    broadcast use vstd::seq_lib::group_to_multiset_ensures;

    assert(s.push(a).push(b).to_multiset() =~= s.to_multiset().insert(a).insert(b));
    assert(s.push(b).push(a).to_multiset() =~= s.to_multiset().insert(b).insert(a));
    assert(s.to_multiset().insert(a).insert(b) =~= s.to_multiset().insert(b).insert(a));
}

/// A stable sort is a permutation.
pub proof fn lemma_stable_sort_multiset<T>(leq: spec_fn(T, T) -> bool, s: Seq<T>)
    ensures
        stable_sort_by(leq, s).to_multiset() == s.to_multiset(),
    decreases s.len(),
{
    broadcast use vstd::seq_lib::group_to_multiset_ensures;

    if s.len() > 0 {
        lemma_stable_sort_multiset(leq, s.drop_last());
        lemma_insert_multiset(leq, stable_sort_by(leq, s.drop_last()), s.last());
        assert(s.drop_last().push(s.last()) =~= s);
        assert(stable_sort_by(leq, s.drop_last()).push(s.last()).to_multiset()
            =~= s.to_multiset()) by {
            lemma_seq_push_multiset_eq(stable_sort_by(leq, s.drop_last()), s.drop_last(), s.last());
        }
    }
}

/// Pushing the same element onto sequences with equal multisets keeps
/// the multisets equal.
pub proof fn lemma_seq_push_multiset_eq<T>(s1: Seq<T>, s2: Seq<T>, x: T)
    requires
        s1.to_multiset() == s2.to_multiset(),
    ensures
        s1.push(x).to_multiset() == s2.push(x).to_multiset(),
{
    broadcast use vstd::seq_lib::group_to_multiset_ensures;

    assert(s1.push(x).to_multiset() =~= s1.to_multiset().insert(x));
    assert(s2.push(x).to_multiset() =~= s2.to_multiset().insert(x));
}

} // verus!
