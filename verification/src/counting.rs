//! Counting arguments about ascending sequences: what it means for two
//! sorted lists when one collection of numbers exceeds another item by item.

use crate::model::ascending;
use vstd::prelude::*;

verus! {

/// The number of entries of `s` that satisfy `p`.
pub open spec fn count(s: Seq<usize>, p: spec_fn(usize) -> bool) -> nat
    decreases s.len(),
{
    if s.len() == 0 {
        0
    } else if p(s.last()) {
        count(s.drop_last(), p) + 1
    } else {
        count(s.drop_last(), p)
    }
}

/// No more entries are counted than there are, and all are where all satisfy `p`.
pub proof fn lemma_count_bounds(s: Seq<usize>, p: spec_fn(usize) -> bool)
    ensures
        count(s, p) <= s.len(),
        (forall|i: int| 0 <= i < s.len() ==> p(#[trigger] s[i])) ==> count(s, p) == s.len(),
    decreases s.len(),
{
    if s.len() > 0 {
        lemma_count_bounds(s.drop_last(), p);
        if forall|i: int| 0 <= i < s.len() ==> p(#[trigger] s[i]) {
            assert forall|i: int| 0 <= i < s.drop_last().len() implies p(
                #[trigger] s.drop_last()[i],
            ) by {
                assert(s.drop_last()[i] == s[i]);
            }
            assert(p(s[s.len() - 1]));
        }
    }
}

/// Taking one entry out lowers the count by one if the entry satisfies `p`,
/// and leaves it otherwise.
pub proof fn lemma_count_remove(s: Seq<usize>, p: spec_fn(usize) -> bool, i: int)
    requires
        0 <= i < s.len(),
    ensures
        count(s, p) == count(s.remove(i), p) + if p(s[i]) {
            1nat
        } else {
            0nat
        },
    decreases s.len(),
{
    if i == s.len() - 1 {
        assert(s.remove(i) =~= s.drop_last());
    } else {
        assert(s.remove(i).drop_last() =~= s.drop_last().remove(i));
        assert(s.remove(i).last() == s.last());
        lemma_count_remove(s.drop_last(), p, i);
    }
}

/// Sequences that hold the same numbers equally often have the same count.
pub proof fn lemma_count_rearranged(a: Seq<usize>, b: Seq<usize>, p: spec_fn(usize) -> bool)
    requires
        a.to_multiset() == b.to_multiset(),
    ensures
        count(a, p) == count(b, p),
    decreases a.len(),
{
    vstd::seq_lib::to_multiset_len(a);
    vstd::seq_lib::to_multiset_len(b);
    if a.len() > 0 {
        let y = a.last();
        let n = a.len() - 1;
        assert(a[n] == y);
        assert(a.contains(y));
        vstd::seq_lib::to_multiset_contains(a, y);
        vstd::seq_lib::to_multiset_contains(b, y);
        let i = choose|i: int| 0 <= i < b.len() && b[i] == y;
        vstd::seq_lib::to_multiset_remove(a, n);
        vstd::seq_lib::to_multiset_remove(b, i);
        assert(a.remove(n) =~= a.drop_last());
        lemma_count_rearranged(a.drop_last(), b.remove(i), p);
        lemma_count_remove(b, p, i);
    }
}

/// In an ascending sequence, at most `k` entries are below a number that the
/// entry at place `k` is not below.
pub proof fn lemma_count_below(a: Seq<usize>, k: int, x: usize)
    requires
        ascending(a),
        0 <= k < a.len(),
        a[k] >= x,
    ensures
        count(a, |y: usize| y < x) <= k,
    decreases a.len(),
{
    let p = |y: usize| y < x;
    assert(a.last() >= a[k]);
    assert(!p(a.last()));
    if k == a.len() - 1 {
        lemma_count_bounds(a.drop_last(), p);
    } else {
        assert(a.drop_last()[k] == a[k]);
        lemma_count_below(a.drop_last(), k, x);
    }
}

/// In an ascending sequence, more than `k` entries are at most a number that
/// the entry at place `k` is at most.
pub proof fn lemma_count_at_most(b: Seq<usize>, k: int, x: usize)
    requires
        ascending(b),
        0 <= k < b.len(),
        b[k] <= x,
    ensures
        count(b, |y: usize| y <= x) > k,
    decreases b.len(),
{
    let p = |y: usize| y <= x;
    if k == b.len() - 1 {
        assert forall|i: int| 0 <= i < b.drop_last().len() implies p(#[trigger] b.drop_last()[i]) by {
            assert(b.drop_last()[i] == b[i]);
            assert(b[i] <= b[k]);
        }
        lemma_count_bounds(b.drop_last(), p);
        assert(p(b.last()));
    } else {
        assert(b.drop_last()[k] == b[k]);
        lemma_count_at_most(b.drop_last(), k, x);
    }
}

/// Where every entry of `v` exceeds the entry of `u` in its place, `u` has at
/// least as many entries below a number as `v` has entries at most that number.
pub proof fn lemma_count_exceeded(u: Seq<usize>, v: Seq<usize>, x: usize)
    requires
        u.len() == v.len(),
        forall|i: int| 0 <= i < u.len() ==> u[i] < v[i],
    ensures
        count(u, |y: usize| y < x) >= count(v, |y: usize| y <= x),
    decreases u.len(),
{
    if u.len() > 0 {
        assert(u.last() < v.last());
        lemma_count_exceeded(u.drop_last(), v.drop_last(), x);
    }
}

/// Let every number of `v` exceed the number of `u` in its place. Then, both
/// put in ascending order, every number of the one list still exceeds the
/// number of the other in its place.
pub proof fn lemma_sorted_exceed(u: Seq<usize>, v: Seq<usize>, a: Seq<usize>, b: Seq<usize>)
    requires
        u.len() == v.len(),
        forall|i: int| 0 <= i < u.len() ==> u[i] < v[i],
        ascending(a),
        ascending(b),
        a.to_multiset() == u.to_multiset(),
        b.to_multiset() == v.to_multiset(),
    ensures
        a.len() == b.len(),
        forall|k: int| 0 <= k < a.len() ==> a[k] < b[k],
{
    vstd::seq_lib::to_multiset_len(a);
    vstd::seq_lib::to_multiset_len(b);
    vstd::seq_lib::to_multiset_len(u);
    vstd::seq_lib::to_multiset_len(v);
    assert forall|k: int| 0 <= k < a.len() implies a[k] < b[k] by {
        if a[k] >= b[k] {
            let x = b[k];
            lemma_count_at_most(b, k, x);
            lemma_count_rearranged(b, v, |y: usize| y <= x);
            lemma_count_exceeded(u, v, x);
            lemma_count_rearranged(a, u, |y: usize| y < x);
            lemma_count_below(a, k, x);
        }
    }
}

} // verus!
