//! The pairwise returns of a series.
//!
//! A series of `n` bars has one return for every pair of positions
//! `start < end`. They are listed by `start`, and for one `start` by `end`.
//! The list has `n * (n - 1) / 2` entries: quadratic in the length of the
//! series, in time and in memory.

use vstd::prelude::*;

verus! {

/// A holding period: bought on the bar at `start`, sold on the bar at `end`.
/// Both are positions in the series.
#[derive(Clone, Copy, Debug, PartialEq, Eq, Structural)]
pub struct Return {
    pub start: usize,
    pub end: usize,
}

/// The returns bought at `start` in a series of `n` bars, by selling day.
pub open spec fn returns_from(start: nat, n: nat) -> Seq<Return> {
    if start + 1 < n {
        Seq::new(
            (n - start - 1) as nat,
            |t: int| Return { start: start as usize, end: (start + 1 + t) as usize },
        )
    } else {
        Seq::empty()
    }
}

/// The returns bought before position `m`, by buying day.
pub open spec fn returns_before(m: nat, n: nat) -> Seq<Return>
    decreases m,
{
    if m == 0 {
        Seq::empty()
    } else {
        returns_before((m - 1) as nat, n) + returns_from((m - 1) as nat, n)
    }
}

/// Every return of a series of `n` bars.
pub open spec fn all_returns(n: nat) -> Seq<Return> {
    returns_before(n, n)
}

/// The place of the return `(start, end)` in `all_returns(n)`.
pub open spec fn rank(start: nat, end: nat, n: nat) -> int {
    returns_before(start, n).len() + (end - start - 1)
}

/// `a` comes before `b` in the listing: earlier buying day, or the same
/// buying day and an earlier selling day.
pub open spec fn listed_before(a: Return, b: Return) -> bool {
    a.start < b.start || (a.start == b.start && a.end < b.end)
}

/// The first `m` buying days account for `m * (2 * n - m - 1) / 2` returns.
pub proof fn lemma_returns_before_len(m: nat, n: nat)
    requires
        m <= n,
    ensures
        2 * returns_before(m, n).len() == m * (2 * n - m - 1),
    decreases m,
{
    if m > 0 {
        let p: nat = (m - 1) as nat;
        lemma_returns_before_len(p, n);
        assert(returns_from(p, n).len() == n - m);
        assert(p * (2 * n - p - 1) + 2 * (n - m) == m * (2 * n - m - 1)) by (nonlinear_arith)
            requires
                p == m - 1,
                m <= n,
        ;
    } else {
        assert(m * (2 * n - m - 1) == 0) by (nonlinear_arith)
            requires
                m == 0,
        ;
    }
}

/// A series of `n` bars has exactly `n * (n - 1) / 2` returns.
pub proof fn lemma_all_returns_len(n: nat)
    ensures
        all_returns(n).len() == n * (n - 1) / 2,
        n <= 1 ==> all_returns(n).len() == 0,
{
    lemma_returns_before_len(n, n);
    let product: int = n * (n - 1);
    assert(n * (2 * n - n - 1) == product) by (nonlinear_arith)
        requires
            product == n * (n - 1),
    ;
    if n <= 1 {
        assert(product == 0) by (nonlinear_arith)
            requires
                product == n * (n - 1),
                n <= 1,
        ;
    }
}

/// The listing of the returns bought before `lo` opens the listing of those
/// bought before `hi`.
pub proof fn lemma_returns_before_prefix(lo: nat, hi: nat, n: nat)
    requires
        lo <= hi,
    ensures
        returns_before(lo, n).len() <= returns_before(hi, n).len(),
        returns_before(hi, n).take(returns_before(lo, n).len() as int) == returns_before(lo, n),
    decreases hi - lo,
{
    if lo == hi {
        assert(returns_before(hi, n).take(returns_before(lo, n).len() as int)
            =~= returns_before(lo, n));
    } else {
        lemma_returns_before_prefix(lo, (hi - 1) as nat, n);
        assert(returns_before(hi, n).take(returns_before(lo, n).len() as int)
            =~= returns_before((hi - 1) as nat, n).take(returns_before(lo, n).len() as int));
    }
}

/// Every pair of a buying day and a later selling day is listed: the return
/// `(start, end)` stands at `rank(start, end, n)`.
pub proof fn lemma_return_at_rank(start: nat, end: nat, n: nat)
    requires
        start < end < n,
        n <= usize::MAX,
    ensures
        0 <= rank(start, end, n) < all_returns(n).len(),
        all_returns(n)[rank(start, end, n)] == (Return { start: start as usize, end: end as usize }),
{
    let k = rank(start, end, n);
    let next = returns_before(start + 1, n);
    assert(next == returns_before(start, n) + returns_from(start, n));
    assert(next[k] == returns_from(start, n)[end - start - 1]);
    lemma_returns_before_prefix(start + 1, n, n);
    assert(all_returns(n).take(next.len() as int)[k] == all_returns(n)[k]);
}

/// Every listed return is bought before `m`, on a day before it is sold, and
/// sold within the series.
pub proof fn lemma_returns_before_bounds(m: nat, n: nat, k: int)
    requires
        m <= n <= usize::MAX,
        0 <= k < returns_before(m, n).len(),
    ensures
        returns_before(m, n)[k].start < m,
        returns_before(m, n)[k].start < returns_before(m, n)[k].end < n,
        k == rank(returns_before(m, n)[k].start as nat, returns_before(m, n)[k].end as nat, n),
    decreases m,
{
    let p: nat = (m - 1) as nat;
    if k < returns_before(p, n).len() {
        lemma_returns_before_bounds(p, n, k);
    } else {
        let t = k - returns_before(p, n).len();
        assert(returns_before(m, n)[k] == returns_from(p, n)[t]);
    }
}

/// In every return of the listing the buying day precedes the selling day,
/// and the return stands at the rank of its two days: distinct places hold
/// distinct returns, in the order of the listing.
pub proof fn lemma_all_returns_bounds(n: nat, k: int)
    requires
        n <= usize::MAX,
        0 <= k < all_returns(n).len(),
    ensures
        all_returns(n)[k].start < all_returns(n)[k].end < n,
        k == rank(all_returns(n)[k].start as nat, all_returns(n)[k].end as nat, n),
{
    lemma_returns_before_bounds(n, n, k);
}

/// The listing is strictly ordered: by buying day, then by selling day.
pub proof fn lemma_all_returns_ordered(n: nat, k1: int, k2: int)
    requires
        n <= usize::MAX,
        0 <= k1 < k2 < all_returns(n).len(),
    ensures
        listed_before(all_returns(n)[k1], all_returns(n)[k2]),
{
    let a = all_returns(n)[k1];
    let b = all_returns(n)[k2];
    lemma_all_returns_bounds(n, k1);
    lemma_all_returns_bounds(n, k2);
    if a.start > b.start {
        lemma_returns_before_prefix((b.start + 1) as nat, a.start as nat, n);
        lemma_returns_before_len_step(b.start as nat, n);
    }
}

/// The listing grows by one buying day at a time.
pub proof fn lemma_returns_before_len_step(start: nat, n: nat)
    requires
        start < n,
    ensures
        returns_before(start + 1, n).len() == returns_before(start, n).len() + (n - start - 1),
{
    assert(returns_before(start + 1, n) == returns_before(start, n) + returns_from(start, n));
}

} // verus!
