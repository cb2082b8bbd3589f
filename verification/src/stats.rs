//! The statistics engine: from a sample to its order statistics.
//!
//! A sample is a sequence of keys (see [`crate::key`]). Its statistics are its
//! count, its least and greatest value, and for each quartile the two values
//! that bracket it. The quartile at `quarter / 4` has the real rank
//! `quarter * (count - 1) / 4` in the sorted sample: `lower` is the value at
//! that rank rounded down, `upper` the value at that rank rounded up, and
//! `weight / 4` the fraction of the way from the one to the other, so that
//! the interpolated quartile is `lower + weight / 4 * (upper - lower)`.
//!
//! Mean, deviation and the interpolation itself are arithmetic on the sample
//! values, which this library does not do.

use vstd::prelude::*;
use crate::error::StatError;
use crate::sort::{
    lemma_sorted, lemma_sorted_contains, lemma_sorted_of_same_values, same_values, sort, sorted,
};

verus! {

/// The bracket of a quartile.
#[derive(Clone, Copy, Debug, PartialEq, Eq, Structural)]
pub struct Quartile {
    /// The value at the rank of the quartile, rounded down.
    pub lower: u64,
    /// The value at the rank of the quartile, rounded up.
    pub upper: u64,
    /// How far the quartile lies from `lower` towards `upper`, in quarters:
    /// 0, 1, 2 or 3.
    pub weight: u8,
}

/// The order statistics of a sample.
#[derive(Clone, Copy, Debug, PartialEq, Eq, Structural)]
pub struct Stat {
    pub count: usize,
    pub min: u64,
    pub q1: Quartile,
    pub q2: Quartile,
    pub q3: Quartile,
    pub max: u64,
}

/// Four times the real rank of the quartile at `quarter / 4` among `count`
/// values.
pub open spec fn rank_in_quarters(quarter: int, count: int) -> int {
    quarter * (count - 1)
}

/// The rank of a quartile, rounded down.
pub open spec fn lower_rank(quarter: int, count: int) -> int {
    rank_in_quarters(quarter, count) / 4
}

/// The rank of a quartile, rounded up.
pub open spec fn upper_rank(quarter: int, count: int) -> int {
    (rank_in_quarters(quarter, count) + 3) / 4
}

/// The bracket of the quartile at `quarter / 4` in a sample already in
/// ascending order.
pub open spec fn quartile_of(ordered: Seq<u64>, quarter: int) -> Quartile {
    Quartile {
        lower: ordered[lower_rank(quarter, ordered.len() as int)],
        upper: ordered[upper_rank(quarter, ordered.len() as int)],
        weight: (rank_in_quarters(quarter, ordered.len() as int) % 4) as u8,
    }
}

/// The statistics of a sample of two values or more.
pub open spec fn stat_of(sample: Seq<u64>) -> Stat {
    let ordered = sorted(sample);
    Stat {
        count: sample.len() as usize,
        min: ordered[0],
        q1: quartile_of(ordered, 1),
        q2: quartile_of(ordered, 2),
        q3: quartile_of(ordered, 3),
        max: ordered[ordered.len() - 1],
    }
}

/// What the engine answers for a sample: its statistics, or why it has
/// none.
pub open spec fn statistic(sample: Seq<u64>) -> Result<Stat, StatError> {
    if sample.len() == 0 {
        Err(StatError::InsufficientData)
    } else if sample.len() == 1 {
        Err(StatError::DegenerateVariance)
    } else {
        Ok(stat_of(sample))
    }
}

proof fn lemma_ranks(quarter: int, count: int)
    requires
        1 <= quarter <= 3,
        1 <= count,
    ensures
        0 <= lower_rank(quarter, count) <= upper_rank(quarter, count) < count,
        0 <= rank_in_quarters(quarter, count) % 4 < 4,
        rank_in_quarters(quarter, count) % 4 == 0 ==> upper_rank(quarter, count) == lower_rank(
            quarter,
            count,
        ),
        rank_in_quarters(quarter, count) % 4 != 0 ==> upper_rank(quarter, count) == lower_rank(
            quarter,
            count,
        ) + 1,
        lower_rank(quarter, count) == ((count - 1) / 4) * quarter + (((count - 1) % 4) * quarter)
            / 4,
        rank_in_quarters(quarter, count) % 4 == (((count - 1) % 4) * quarter) % 4,
{
    let m = count - 1;
    let whole = m / 4;
    let part = m % 4;
    assert(quarter * m == 4 * (whole * quarter) + part * quarter) by (nonlinear_arith)
        requires
            m == 4 * whole + part,
    ;
    assert(0 <= quarter * m <= 3 * m) by (nonlinear_arith)
        requires
            1 <= quarter <= 3,
            0 <= m,
    ;
    assert(0 <= part * quarter <= 9 && 0 <= whole * quarter <= m) by (nonlinear_arith)
        requires
            0 <= part <= 3,
            1 <= quarter <= 3,
            0 <= whole,
            m == 4 * whole + part,
    ;
}

/// Reads the bracket of one quartile off a sorted sample.
fn quartile(ordered: &Vec<u64>, quarter: u8) -> (q: Quartile)
    requires
        1 <= quarter <= 3,
        ordered.len() >= 1,
    ensures
        q == quartile_of(ordered@, quarter as int),
{
    let last: usize = ordered.len() - 1;
    let step: usize = quarter as usize;
    proof {
        lemma_ranks(quarter as int, ordered.len() as int);
        assert((last / 4) * step <= last && (last % 4) * step <= 9) by (nonlinear_arith)
            requires
                1 <= step <= 3,
        ;
    }
    let rest: usize = (last % 4) * step;
    let lower: usize = (last / 4) * step + rest / 4;
    let weight: usize = rest % 4;
    let upper: usize = if weight == 0 {
        lower
    } else {
        lower + 1
    };
    Quartile { lower: ordered[lower], upper: ordered[upper], weight: weight as u8 }
}

/// The statistics of `data`.
///
/// A sample without values is refused as `InsufficientData`, a sample of
/// one value as `DegenerateVariance`; every other sample has statistics.
/// `data` is left as it is.
pub fn cal_statistic(data: &[u64]) -> (r: Result<Stat, StatError>)
    ensures
        r == statistic(data@),
{
    let count: usize = data.len();
    if count == 0 {
        return Err(StatError::InsufficientData);
    }
    if count == 1 {
        return Err(StatError::DegenerateVariance);
    }
    let ordered = sort(data);
    proof {
        lemma_sorted(data@);
    }
    Ok(
        Stat {
            count,
            min: ordered[0],
            q1: quartile(&ordered, 1),
            q2: quartile(&ordered, 2),
            q3: quartile(&ordered, 3),
            max: ordered[count - 1],
        },
    )
}

/// The count is the length of the sample.
pub proof fn lemma_stat_count(sample: Seq<u64>)
    requires
        sample.len() <= usize::MAX,
    ensures
        stat_of(sample).count == sample.len(),
{
}

/// `min` and `max` are values of the sample, and no value of the sample is
/// below `min` or above `max`.
pub proof fn lemma_stat_extrema(sample: Seq<u64>)
    requires
        sample.len() >= 1,
    ensures
        sample.contains(stat_of(sample).min),
        sample.contains(stat_of(sample).max),
        forall|i: int|
            0 <= i < sample.len() ==> stat_of(sample).min <= #[trigger] sample[i] <= stat_of(
                sample,
            ).max,
{
    let ordered = sorted(sample);
    lemma_sorted(sample);
    lemma_sorted_contains(sample, ordered[0]);
    lemma_sorted_contains(sample, ordered[ordered.len() - 1]);
    assert(ordered.contains(ordered[0]));
    assert(ordered.contains(ordered[ordered.len() - 1]));
    assert forall|i: int| 0 <= i < sample.len() implies ordered[0] <= #[trigger] sample[i]
        <= ordered[ordered.len() - 1] by {
        lemma_sorted_contains(sample, sample[i]);
        assert(sample.contains(sample[i]));
        let at = choose|at: int| 0 <= at < ordered.len() && ordered[at] == sample[i];
        assert(ordered[0] <= ordered[at] <= ordered[ordered.len() - 1]);
    }
}

/// Every bracket is made of values of the sample, around the rank of its
/// quartile: `lower` is the value at the rank rounded down, `upper` the
/// value at the rank rounded up, they are the same value where the rank is
/// whole, and neighbours in the sorted sample where it is not.
pub proof fn lemma_quartile_bracket(sample: Seq<u64>, quarter: int)
    requires
        1 <= quarter <= 3,
        sample.len() >= 1,
    ensures
        ({
            let q = quartile_of(sorted(sample), quarter);
            let lo = lower_rank(quarter, sample.len() as int);
            &&& 0 <= lo < sample.len()
            &&& 4 * lo + q.weight == quarter * (sample.len() - 1)
            &&& q.weight < 4
            &&& q.lower == sorted(sample)[lo]
            &&& q.weight == 0 ==> q.upper == q.lower
            &&& q.weight != 0 ==> lo + 1 < sample.len() && q.upper == sorted(sample)[lo + 1]
            &&& q.lower <= q.upper
            &&& sample.contains(q.lower)
            &&& sample.contains(q.upper)
        }),
{
    let ordered = sorted(sample);
    lemma_sorted(sample);
    lemma_ranks(quarter, sample.len() as int);
    let q = quartile_of(ordered, quarter);
    assert(ordered.contains(q.lower));
    assert(ordered.contains(q.upper));
    lemma_sorted_contains(sample, q.lower);
    lemma_sorted_contains(sample, q.upper);
}

/// The statistics are in order: from `min` through the brackets of the first,
/// second and third quartile to `max`, no value is followed by a smaller
/// one.
pub proof fn lemma_stat_ordered(sample: Seq<u64>)
    requires
        sample.len() >= 1,
    ensures
        ({
            let s = stat_of(sample);
            &&& s.min <= s.q1.lower <= s.q1.upper
            &&& s.q1.lower <= s.q2.lower && s.q1.upper <= s.q2.upper
            &&& s.q2.lower <= s.q3.lower && s.q2.upper <= s.q3.upper
            &&& s.q3.lower <= s.q3.upper <= s.max
        }),
{
    let n = sample.len() as int;
    lemma_sorted(sample);
    lemma_ranks(1, n);
    lemma_ranks(2, n);
    lemma_ranks(3, n);
    assert(rank_in_quarters(1, n) <= rank_in_quarters(2, n) <= rank_in_quarters(3, n));
}

/// The second quartile is the median: the middle value of a sample of odd
/// count, and half way between the two middle values of a sample of even
/// count.
pub proof fn lemma_stat_median(sample: Seq<u64>)
    requires
        sample.len() >= 1,
    ensures
        ({
            let ordered = sorted(sample);
            let n = sample.len() as int;
            let q2 = stat_of(sample).q2;
            &&& n % 2 == 1 ==> q2.weight == 0 && q2.lower == ordered[(n - 1) / 2] && q2.upper
                == ordered[(n - 1) / 2]
            &&& n % 2 == 0 ==> q2.weight == 2 && q2.lower == ordered[n / 2 - 1] && q2.upper
                == ordered[n / 2]
        }),
{
    lemma_sorted(sample);
    lemma_ranks(2, sample.len() as int);
}

/// The statistics do not depend on the order of the sample: two samples
/// with the same values, each as often, have the same statistics.
pub proof fn lemma_stat_order_independent(a: Seq<u64>, b: Seq<u64>)
    requires
        same_values(a, b),
    ensures
        statistic(a) == statistic(b),
{
    a.to_multiset_ensures();
    b.to_multiset_ensures();
    lemma_sorted_of_same_values(a, b);
}

} // verus!
