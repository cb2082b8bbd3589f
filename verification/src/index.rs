//! The return index: every return of a series, and the returns of each year.
//!
//! The index is built in one pass over all pairs of bars. Its size is
//! quadratic in the length of the series: a few thousand daily bars make
//! millions of returns.

use vstd::prelude::*;
use crate::price::Price;
use crate::listing::{
    all_returns, lemma_return_at_rank, lemma_returns_before_bounds, lemma_returns_before_prefix,
    rank, returns_before, returns_from, Return,
};
use crate::sample::{in_year, lemma_year_has_returns, picks_active_year, return_at, total, within_year};
use crate::select::{lemma_select_none, lemma_select_step, select};
use crate::years::{dates_increasing, has_pair, is_year_keys, lemma_years_never_decrease, years_ascending};

verus! {

/// The returns bought and sold within one year, as places in the listing of
/// all returns.
#[derive(Debug)]
pub struct YearReturns {
    pub year: i32,
    pub picks: Vec<usize>,
}

/// The index of a series.
#[derive(Debug)]
pub struct ReturnIndex {
    /// Every return, by buying day and then by selling day.
    pub all: Vec<Return>,
    /// The years with a return of their own, in ascending order, each with
    /// its returns.
    pub yearly: Vec<YearReturns>,
}

/// The years of a list of groups.
pub open spec fn keys_of(yearly: Seq<YearReturns>) -> Seq<i32> {
    Seq::new(yearly.len(), |t: int| yearly[t].year)
}

/// Each group holds the returns of its year among the first `seen` returns
/// of the listing, and has some; the groups are in ascending order of year.
spec fn groups_hold(series: Seq<Price>, yearly: Seq<YearReturns>, seen: nat) -> bool {
    &&& years_ascending(keys_of(yearly))
    &&& forall|t: int|
        0 <= t < yearly.len() ==> (#[trigger] yearly[t]).picks@ == select(
            seen,
            within_year(series, yearly[t].year),
        ) && yearly[t].picks@.len() > 0
}

/// `current` holds the returns of year `y` among the first `seen` returns,
/// every group is of an earlier year, and every other year with a return
/// among the first `seen` has its group.
spec fn current_holds(
    series: Seq<Price>,
    yearly: Seq<YearReturns>,
    current: Seq<usize>,
    seen: nat,
    y: i32,
) -> bool {
    &&& current == select(seen, within_year(series, y))
    &&& forall|t: int| 0 <= t < yearly.len() ==> (#[trigger] yearly[t]).year < y
    &&& forall|other: i32|
        other != y && select(seen, within_year(series, other)).len() > 0 ==> #[trigger] keys_of(
            yearly,
        ).contains(other)
}

/// Every year with a return among the first `seen` has its group.
spec fn groups_complete(series: Seq<Price>, yearly: Seq<YearReturns>, seen: nat) -> bool {
    forall|other: i32|
        select(seen, within_year(series, other)).len() > 0 ==> #[trigger] keys_of(yearly).contains(
            other,
        )
}

/// Listing the return `(i, j)` adds it to the year of `i` where `j` is of the
/// same year, and to no other year.
proof fn lemma_list_one(
    series: Seq<Price>,
    yearly: Seq<YearReturns>,
    current: Seq<usize>,
    seen: nat,
    i: int,
    j: int,
)
    requires
        dates_increasing(series),
        series.len() <= usize::MAX,
        0 <= i < j < series.len(),
        seen == rank(i as nat, j as nat, series.len()),
        groups_hold(series, yearly, seen),
        current_holds(series, yearly, current, seen, series[i].date.year),
    ensures
        groups_hold(series, yearly, seen + 1),
        series[j].date.year == series[i].date.year ==> current_holds(
            series,
            yearly,
            current.push(seen as usize),
            seen + 1,
            series[i].date.year,
        ),
        series[j].date.year != series[i].date.year ==> current_holds(
            series,
            yearly,
            current,
            seen + 1,
            series[i].date.year,
        ),
{
    let y = series[i].date.year;
    lemma_return_at_rank(i as nat, j as nat, series.len());
    assert(return_at(series, seen as int) == (Return { start: i as usize, end: j as usize }));
    assert forall|other: i32|
        select(seen + 1, within_year(series, other)) == if other == y && series[j].date.year == y {
            select(seen, within_year(series, other)).push(seen as usize)
        } else {
            select(seen, within_year(series, other))
        } by {
        lemma_select_step(seen, within_year(series, other));
        assert(within_year(series, other)(seen as int) == in_year(series, other, seen as int));
    }
    assert forall|t: int| 0 <= t < yearly.len() implies (#[trigger] yearly[t]).picks@ == select(
        seen + 1,
        within_year(series, yearly[t].year),
    ) by {
        assert(yearly[t].year < y);
    }
    assert forall|other: i32|
        other != y && select(seen + 1, within_year(series, other)).len() > 0 implies #[trigger] keys_of(
        yearly,
    ).contains(other) by {
        assert(select(seen + 1, within_year(series, other)) == select(
            seen,
            within_year(series, other),
        ));
    }
}

/// Before the returns bought on bar `i`, no return is of a year later than
/// that of bar `i - 1`.
proof fn lemma_later_year_is_new(series: Seq<Price>, i: int, y: i32)
    requires
        dates_increasing(series),
        series.len() <= usize::MAX,
        0 < i <= series.len(),
        series[i - 1].date.year < y,
    ensures
        select(returns_before(i as nat, series.len()).len(), within_year(series, y)) == Seq::<
            usize,
        >::empty(),
{
    let n = series.len();
    let seen = returns_before(i as nat, n).len();
    lemma_returns_before_prefix(i as nat, n, n);
    assert forall|k: int| 0 <= k < seen implies !#[trigger] within_year(series, y)(k) by {
        lemma_returns_before_bounds(i as nat, n, k);
        assert(all_returns(n).take(seen as int)[k] == all_returns(n)[k]);
        let r = return_at(series, k);
        lemma_years_never_decrease(series, r.start as int, i - 1);
    }
    lemma_select_none(seen, within_year(series, y));
}

/// Closing the group of year `y` keeps the groups in order and whole.
proof fn lemma_close_group(
    series: Seq<Price>,
    yearly: Seq<YearReturns>,
    group: YearReturns,
    seen: nat,
)
    requires
        groups_hold(series, yearly, seen),
        current_holds(series, yearly, group.picks@, seen, group.year),
        group.picks@.len() > 0,
    ensures
        groups_hold(series, yearly.push(group), seen),
        groups_complete(series, yearly.push(group), seen),
        forall|t: int|
            0 <= t < yearly.push(group).len() ==> (#[trigger] yearly.push(group)[t]).year
                <= group.year,
{
    let next = yearly.push(group);
    assert forall|a: int, b: int| 0 <= a < b < next.len() implies keys_of(next)[a] < keys_of(
        next,
    )[b] by {
        if b < yearly.len() {
            assert(keys_of(yearly)[a] < keys_of(yearly)[b]);
        } else {
            assert(yearly[a].year < group.year);
        }
    }
    assert forall|t: int| 0 <= t < next.len() implies (#[trigger] next[t]).picks@ == select(
        seen,
        within_year(series, next[t].year),
    ) && next[t].picks@.len() > 0 by {
        if t < yearly.len() {
            assert(next[t] == yearly[t]);
        }
    }
    assert forall|other: i32|
        select(seen, within_year(series, other)).len() > 0 implies #[trigger] keys_of(
        next,
    ).contains(other) by {
        if other == group.year {
            assert(keys_of(next)[yearly.len() as int] == other);
        } else {
            assert(keys_of(yearly).contains(other));
            let t = choose|t: int| 0 <= t < keys_of(yearly).len() && keys_of(yearly)[t] == other;
            assert(keys_of(next)[t] == other);
        }
    }
    assert forall|t: int| 0 <= t < next.len() implies (#[trigger] next[t]).year <= group.year by {
        if t < yearly.len() {
            assert(next[t] == yearly[t]);
        }
    }
}

/// Where year `y` has no return among the first `seen`, the groups are
/// whole without it.
proof fn lemma_skip_group(
    series: Seq<Price>,
    yearly: Seq<YearReturns>,
    current: Seq<usize>,
    seen: nat,
    y: i32,
)
    requires
        current_holds(series, yearly, current, seen, y),
        current.len() == 0,
    ensures
        groups_complete(series, yearly, seen),
        forall|t: int| 0 <= t < yearly.len() ==> (#[trigger] yearly[t]).year <= y,
{
}

/// Whole groups of earlier years leave a later year without returns to
/// start from nothing.
proof fn lemma_open_group(series: Seq<Price>, yearly: Seq<YearReturns>, seen: nat, before: i32, y: i32)
    requires
        groups_complete(series, yearly, seen),
        forall|t: int| 0 <= t < yearly.len() ==> (#[trigger] yearly[t]).year <= before,
        before < y,
        select(seen, within_year(series, y)) == Seq::<usize>::empty(),
    ensures
        current_holds(series, yearly, Seq::<usize>::empty(), seen, y),
{
    assert forall|t: int| 0 <= t < yearly.len() implies (#[trigger] yearly[t]).year < y by {
        assert(yearly[t].year <= before);
    }
}

/// Groups that are in order, hold the returns of their years and are whole
/// are the groups of the years with a return of their own.
proof fn lemma_groups_are_keys(series: Seq<Price>, yearly: Seq<YearReturns>)
    requires
        series.len() <= usize::MAX,
        total(series) <= usize::MAX,
        groups_hold(series, yearly, total(series)),
        groups_complete(series, yearly, total(series)),
    ensures
        is_year_keys(series, keys_of(yearly)),
{
    let keys = keys_of(yearly);
    assert forall|y: i32| #[trigger] keys.contains(y) <==> has_pair(series, y) by {
        lemma_year_has_returns(series, y);
        if keys.contains(y) {
            let t = choose|t: int| 0 <= t < keys.len() && keys[t] == y;
            assert(yearly[t].picks@.len() > 0);
        }
    }
}

impl ReturnIndex {
    /// The years with a return of their own.
    pub open spec fn keys(self) -> Seq<i32> {
        keys_of(self.yearly@)
    }

    /// `self` is the index of `series`: it lists every return, and for each
    /// year with two bars or more, in ascending order, the returns bought
    /// and sold in it.
    pub open spec fn describes(self, series: Seq<Price>) -> bool {
        &&& self.all@ == all_returns(series.len())
        &&& is_year_keys(series, self.keys())
        &&& forall|t: int|
            0 <= t < self.yearly@.len() ==> (#[trigger] self.yearly@[t]).picks@
                == picks_active_year(series, self.yearly@[t].year)
    }

    /// Builds the index of a series of increasing dates.
    pub fn build(data: &Vec<Price>) -> (ix: ReturnIndex)
        requires
            dates_increasing(data@),
        ensures
            ix.describes(data@),
    {
        let n: usize = data.len();
        let ghost series = data@;
        let mut all: Vec<Return> = Vec::new();
        let mut yearly: Vec<YearReturns> = Vec::new();
        let mut current: Vec<usize> = Vec::new();
        let mut i: usize = 0;
        while i < n
            invariant
                n == data.len(),
                series == data@,
                dates_increasing(series),
                i <= n,
                all@ == returns_before(i as nat, n as nat),
                groups_hold(series, yearly@, all.len() as nat),
                i == 0 ==> yearly@.len() == 0 && current@.len() == 0,
                i > 0 ==> current_holds(
                    series,
                    yearly@,
                    current@,
                    all.len() as nat,
                    series[i - 1].date.year,
                ),
            decreases n - i,
        {
            let y: i32 = data[i].date.year;
            if i > 0 && data[i - 1].date.year != y {
                let before: i32 = data[i - 1].date.year;
                proof {
                    lemma_years_never_decrease(series, i - 1, i as int);
                    lemma_later_year_is_new(series, i as int, y);
                }
                if current.len() > 0 {
                    let group = YearReturns { year: before, picks: current };
                    proof {
                        lemma_close_group(series, yearly@, group, all.len() as nat);
                    }
                    yearly.push(group);
                } else {
                    proof {
                        lemma_skip_group(series, yearly@, current@, all.len() as nat, before);
                    }
                }
                current = Vec::new();
                proof {
                    lemma_open_group(series, yearly@, all.len() as nat, before, y);
                    assert(current@ =~= Seq::<usize>::empty());
                }
            }
            proof {
                if i == 0 {
                    assert(current@ =~= Seq::<usize>::empty());
                    assert forall|other: i32|
                        select(0, within_year(series, other)).len() > 0 implies #[trigger] keys_of(
                        yearly@,
                    ).contains(other) by {}
                }
                assert(current_holds(series, yearly@, current@, all.len() as nat, y));
            }
            let mut j: usize = i + 1;
            while j < n
                invariant
                    n == data.len(),
                    series == data@,
                    dates_increasing(series),
                    i < j <= n,
                    y == series[i as int].date.year,
                    all@ == returns_before(i as nat, n as nat) + returns_from(
                        i as nat,
                        n as nat,
                    ).take(j - i - 1),
                    groups_hold(series, yearly@, all.len() as nat),
                    current_holds(series, yearly@, current@, all.len() as nat, y),
                decreases n - j,
            {
                proof {
                    lemma_list_one(series, yearly@, current@, all.len() as nat, i as int, j as int);
                }
                if data[j].date.year == y {
                    current.push(all.len());
                }
                all.push(Return { start: i, end: j });
                j = j + 1;
                assert(returns_from(i as nat, n as nat).take(j - i - 1) == returns_from(
                    i as nat,
                    n as nat,
                ).take(j - i - 2).push(Return { start: i, end: (j - 1) as usize }));
            }
            assert(returns_from(i as nat, n as nat).take(n - i - 1) == returns_from(
                i as nat,
                n as nat,
            ));
            i = i + 1;
        }
        if i > 0 && current.len() > 0 {
            let group = YearReturns { year: data[i - 1].date.year, picks: current };
            proof {
                lemma_close_group(series, yearly@, group, all.len() as nat);
            }
            yearly.push(group);
        } else if i > 0 {
            proof {
                lemma_skip_group(
                    series,
                    yearly@,
                    current@,
                    all.len() as nat,
                    series[i - 1].date.year,
                );
            }
        }
        proof {
            assert(groups_complete(series, yearly@, total(series)));
            lemma_groups_are_keys(series, yearly@);
        }
        ReturnIndex { all, yearly }
    }
}

} // verus!
