//! Sorting a sample.

use vstd::prelude::*;
use vstd::relations::{sorted_by, total_ordering};
use vstd::seq_lib::{lemma_multiset_commutative, lemma_sorted_unique};

verus! {

/// No value of `s` is followed by a smaller one.
pub open spec fn ascending(s: Seq<u64>) -> bool {
    forall|i: int, j: int| 0 <= i <= j < s.len() ==> s[i] <= s[j]
}

/// `a` and `b` hold the same values, each as often: one is the other in
/// another order.
pub open spec fn same_values(a: Seq<u64>, b: Seq<u64>) -> bool {
    a.to_multiset() == b.to_multiset()
}

/// `t` is `s` put in ascending order.
pub open spec fn is_sorted_of(t: Seq<u64>, s: Seq<u64>) -> bool {
    ascending(t) && same_values(t, s)
}

spec fn at_most() -> spec_fn(u64, u64) -> bool {
    |a: u64, b: u64| a <= b
}

/// The values of `s` in ascending order.
pub closed spec fn sorted(s: Seq<u64>) -> Seq<u64> {
    s.sort_by(at_most())
}

/// `sorted(s)` is in ascending order and holds the values of `s`.
pub proof fn lemma_sorted(s: Seq<u64>)
    ensures
        is_sorted_of(sorted(s), s),
        sorted(s).len() == s.len(),
{
    s.lemma_sort_by_ensures(at_most());
    let t = sorted(s);
    assert(sorted_by(t, at_most()));
    assert forall|i: int, j: int| 0 <= i <= j < t.len() implies t[i] <= t[j] by {
        if i < j {
            assert(at_most()(t[i], t[j]));
        }
    }
    s.to_multiset_ensures();
    t.to_multiset_ensures();
}

/// Only one sequence is `s` put in ascending order.
pub proof fn lemma_sorted_is_unique(t: Seq<u64>, s: Seq<u64>)
    requires
        is_sorted_of(t, s),
    ensures
        t == sorted(s),
{
    lemma_sorted(s);
    assert(total_ordering(at_most()));
    assert(sorted_by(t, at_most()));
    assert(sorted_by(sorted(s), at_most()));
    lemma_sorted_unique(t, sorted(s), at_most());
}

/// Sorting forgets the order of its input.
pub proof fn lemma_sorted_of_same_values(a: Seq<u64>, b: Seq<u64>)
    requires
        same_values(a, b),
    ensures
        sorted(a) == sorted(b),
{
    lemma_sorted(a);
    lemma_sorted_is_unique(sorted(a), b);
}

/// Every value of `s` occurs in `sorted(s)`, and every value of `sorted(s)`
/// in `s`.
pub proof fn lemma_sorted_contains(s: Seq<u64>, x: u64)
    ensures
        sorted(s).contains(x) <==> s.contains(x),
{
    lemma_sorted(s);
    s.to_multiset_ensures();
    sorted(s).to_multiset_ensures();
    assert(s.contains(x) <==> s.to_multiset().count(x) > 0);
    assert(sorted(s).contains(x) <==> sorted(s).to_multiset().count(x) > 0);
}

/// Merges two ascending runs into one.
fn merge(a: &Vec<u64>, b: &Vec<u64>) -> (r: Vec<u64>)
    requires
        ascending(a@),
        ascending(b@),
    ensures
        ascending(r@),
        r@.to_multiset() == a@.to_multiset().add(b@.to_multiset()),
{
    broadcast use vstd::multiset::group_multiset_axioms;

    let mut r: Vec<u64> = Vec::new();
    let mut i: usize = 0;
    let mut j: usize = 0;
    proof {
        assert(a@.take(0) =~= Seq::<u64>::empty());
        assert(b@.take(0) =~= Seq::<u64>::empty());
        r@.to_multiset_ensures();
    }
    while i < a.len() || j < b.len()
        invariant
            i <= a.len(),
            j <= b.len(),
            ascending(a@),
            ascending(b@),
            ascending(r@),
            r@.to_multiset() == a@.take(i as int).to_multiset().add(
                b@.take(j as int).to_multiset(),
            ),
            forall|t: int| 0 <= t < r.len() && i < a.len() ==> r@[t] <= a@[i as int],
            forall|t: int| 0 <= t < r.len() && j < b.len() ==> r@[t] <= b@[j as int],
        decreases a.len() - i + b.len() - j,
    {
        let from_a: bool = if j == b.len() {
            true
        } else if i == a.len() {
            false
        } else {
            a[i] <= b[j]
        };
        let ghost before = r@;
        if from_a {
            r.push(a[i]);
            proof {
                assert(a@.take(i + 1) =~= a@.take(i as int).push(a@[i as int]));
                a@.take(i as int).to_multiset_ensures();
                before.to_multiset_ensures();
                assert(r@.to_multiset() =~= a@.take(i + 1).to_multiset().add(
                    b@.take(j as int).to_multiset(),
                ));
            }
            i = i + 1;
        } else {
            r.push(b[j]);
            proof {
                assert(b@.take(j + 1) =~= b@.take(j as int).push(b@[j as int]));
                b@.take(j as int).to_multiset_ensures();
                before.to_multiset_ensures();
                assert(r@.to_multiset() =~= a@.take(i as int).to_multiset().add(
                    b@.take(j + 1).to_multiset(),
                ));
            }
            j = j + 1;
        }
    }
    proof {
        assert(a@.take(i as int) =~= a@);
        assert(b@.take(j as int) =~= b@);
    }
    r
}

/// Sorts the values of `v` between `lo` and `hi` by merging its sorted
/// halves.
fn sort_range(v: &[u64], lo: usize, hi: usize) -> (r: Vec<u64>)
    requires
        lo <= hi <= v.len(),
    ensures
        is_sorted_of(r@, v@.subrange(lo as int, hi as int)),
    decreases hi - lo,
{
    let mut r: Vec<u64> = Vec::new();
    if hi - lo == 0 {
        assert(v@.subrange(lo as int, hi as int) =~= r@);
    } else if hi - lo == 1 {
        r.push(v[lo]);
        assert(v@.subrange(lo as int, hi as int) =~= r@);
    } else {
        let mid: usize = lo + (hi - lo) / 2;
        let left = sort_range(v, lo, mid);
        let right = sort_range(v, mid, hi);
        r = merge(&left, &right);
        proof {
            let whole = v@.subrange(lo as int, hi as int);
            let first = v@.subrange(lo as int, mid as int);
            let second = v@.subrange(mid as int, hi as int);
            assert(whole =~= first + second);
            lemma_multiset_commutative(first, second);
        }
    }
    r
}

/// The values of `v` in ascending order, by merge sort: `v.len() * log
/// v.len()` comparisons, and as much memory again as `v` takes.
pub fn sort(v: &[u64]) -> (r: Vec<u64>)
    ensures
        r@ == sorted(v@),
{
    let r = sort_range(v, 0, v.len());
    proof {
        assert(v@.subrange(0, v.len() as int) =~= v@);
        lemma_sorted_is_unique(r@, v@);
    }
    r
}

} // verus!
