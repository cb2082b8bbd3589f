//! The samples of the queries: which returns enter which statistic.

use vstd::prelude::*;
use crate::date::Date;
use crate::error::StatError;
use crate::listing::{
    all_returns, lemma_all_returns_bounds, lemma_return_at_rank, lemma_returns_before_len_step,
    lemma_returns_before_prefix, rank, returns_before, Return,
};
use crate::price::Price;
use crate::select::{
    gather, lemma_select, lemma_select_skip, lemma_select_step, select, strictly_ascending,
};
use crate::stats::{statistic, Stat};
use crate::years::{
    dates_increasing, first_bar, has_pair, is_last_bar, last_bar, lemma_last_bar_unique, year_close,
    year_keys, year_set,
};

verus! {

/// How many returns the series has.
pub open spec fn total(series: Seq<Price>) -> nat {
    all_returns(series.len()).len()
}

/// The return listed at place `k`.
pub open spec fn return_at(series: Seq<Price>, k: int) -> Return {
    all_returns(series.len())[k]
}

/// The return at place `k` is bought and sold in year `y`.
pub open spec fn in_year(series: Seq<Price>, y: i32, k: int) -> bool {
    &&& series[return_at(series, k).start as int].date.year == y
    &&& series[return_at(series, k).end as int].date.year == y
}

/// The return at place `k` is sold on `day`.
pub open spec fn sold_on(series: Seq<Price>, day: Date, k: int) -> bool {
    series[return_at(series, k).end as int].date == day
}

/// Wants the returns sold on `day`.
pub open spec fn ends_on(series: Seq<Price>, day: Date) -> spec_fn(int) -> bool {
    |k: int| sold_on(series, day, k)
}

/// Wants the returns bought and sold in year `y`.
pub open spec fn within_year(series: Seq<Price>, y: i32) -> spec_fn(int) -> bool {
    |k: int| in_year(series, y, k)
}

/// Wants the returns bought in year `y` and sold on its last trading day.
pub open spec fn closes_year(series: Seq<Price>, y: i32) -> spec_fn(int) -> bool {
    |k: int| in_year(series, y, k) && sold_on(series, year_close(series, y), k)
}

/// The returns of positions still open on the last day of the series.
pub open spec fn picks_hold_all(series: Seq<Price>) -> Seq<usize> {
    if series.len() == 0 {
        Seq::empty()
    } else {
        select(total(series), ends_on(series, series.last().date))
    }
}

/// The returns bought and sold within year `y`.
pub open spec fn picks_active_year(series: Seq<Price>, y: i32) -> Seq<usize> {
    select(total(series), within_year(series, y))
}

/// The returns bought in year `y` and closed on its last trading day.
pub open spec fn picks_hold_year(series: Seq<Price>, y: i32) -> Seq<usize> {
    select(total(series), closes_year(series, y))
}

/// The first and the last bar of a year, as positions in the series. A year
/// with a single bar has both on that bar.
#[derive(Clone, Copy, Debug, PartialEq, Eq, Structural)]
pub struct YearSpan {
    pub year: i32,
    pub first: usize,
    pub last: usize,
}

/// The span of year `y`.
pub open spec fn year_span(series: Seq<Price>, y: i32) -> YearSpan {
    YearSpan {
        year: y,
        first: first_bar(series, y) as usize,
        last: last_bar(series, y) as usize,
    }
}

/// The span of every year of the series, in ascending order of year.
pub open spec fn year_spans(series: Seq<Price>) -> Seq<YearSpan> {
    Seq::new(year_set(series).len(), |t: int| year_span(series, year_set(series)[t]))
}

/// For every year with a return of its own, in ascending order, the
/// statistics of the values of the returns bought and sold in it.
pub open spec fn stats_active_year(series: Seq<Price>, values: Seq<u64>) -> Seq<
    (i32, Result<Stat, StatError>),
> {
    Seq::new(
        year_keys(series).len(),
        |t: int|
            (
                year_keys(series)[t],
                statistic(gather(values, picks_active_year(series, year_keys(series)[t]))),
            ),
    )
}

/// For every year with a return of its own, in ascending order, the
/// statistics of the values of the returns bought in it and sold on its last
/// trading day.
pub open spec fn stats_hold_year(series: Seq<Price>, values: Seq<u64>) -> Seq<
    (i32, Result<Stat, StatError>),
> {
    Seq::new(
        year_keys(series).len(),
        |t: int|
            (
                year_keys(series)[t],
                statistic(gather(values, picks_hold_year(series, year_keys(series)[t]))),
            ),
    )
}

/// The last return of a year is sold on the last bar of the year.
pub proof fn lemma_last_pick_closes_year(series: Seq<Price>, y: i32)
    requires
        series.len() <= usize::MAX,
        total(series) <= usize::MAX,
        picks_active_year(series, y).len() > 0,
    ensures
        is_last_bar(series, y, last_bar(series, y)),
        last_bar(series, y) == return_at(series, picks_active_year(series, y).last() as int).end,
        year_close(series, y) == series[return_at(
            series,
            picks_active_year(series, y).last() as int,
        ).end as int].date,
{
    let n = series.len();
    let picks = picks_active_year(series, y);
    lemma_select(total(series), within_year(series, y));
    let k = picks.last() as int;
    assert(picks[picks.len() - 1] == picks.last());
    assert(within_year(series, y)(k));
    let r = return_at(series, k);
    lemma_all_returns_bounds(n, k);
    assert forall|l: int| r.end < l < series.len() implies (#[trigger] series[l]).date.year != y by {
        if series[l].date.year == y {
            lemma_return_at_rank(r.start as nat, l as nat, n);
            let later = rank(r.start as nat, l as nat, n);
            assert(within_year(series, y)(later));
            assert(picks.contains(later as usize));
            let t = choose|t: int| 0 <= t < picks.len() && picks[t] == later as usize;
            assert(picks[t] <= picks[picks.len() - 1]);
        }
    }
    assert(is_last_bar(series, y, r.end as int));
    lemma_last_bar_unique(series, y, r.end as int);
}

/// In a series of increasing dates the returns sold on the date of the last
/// bar are the returns sold on the last bar.
pub proof fn lemma_sold_on_last_day(series: Seq<Price>, k: int)
    requires
        dates_increasing(series),
        1 <= series.len() <= usize::MAX,
        0 <= k < total(series),
    ensures
        sold_on(series, series.last().date, k) <==> return_at(series, k).end == series.len() - 1,
{
    lemma_all_returns_bounds(series.len(), k);
    let end = return_at(series, k).end as int;
    if end < series.len() - 1 {
        assert(series[end].date.before(series[series.len() - 1].date));
    }
}

/// Of the returns bought before bar `m`, one for each buying day is sold on
/// the last bar.
proof fn lemma_hold_all_before(series: Seq<Price>, m: nat)
    requires
        dates_increasing(series),
        1 <= series.len() <= usize::MAX,
        total(series) <= usize::MAX,
        m <= series.len() - 1,
    ensures
        returns_before(m, series.len()).len() <= total(series),
        select(returns_before(m, series.len()).len(), ends_on(series, series.last().date)).len()
            == m,
        forall|t: int|
            0 <= t < m ==> (#[trigger] select(
                returns_before(m, series.len()).len(),
                ends_on(series, series.last().date),
            )[t]) == rank(t as nat, (series.len() - 1) as nat, series.len()),
    decreases m,
{
    let n = series.len();
    let wanted = ends_on(series, series.last().date);
    lemma_returns_before_prefix(m, n, n);
    if m > 0 {
        let p: nat = (m - 1) as nat;
        lemma_hold_all_before(series, p);
        lemma_returns_before_len_step(p, n);
        let lo = returns_before(p, n).len();
        let hi = returns_before(m, n).len();
        let last = rank(p, (n - 1) as nat, n);
        assert(last == hi - 1);
        assert forall|k: int| lo <= k < last implies !#[trigger] wanted(k) by {
            let end = p + 1 + (k - lo);
            lemma_return_at_rank(p, end as nat, n);
            lemma_sold_on_last_day(series, k);
        }
        lemma_select_skip(lo, last as nat, wanted);
        lemma_return_at_rank(p, (n - 1) as nat, n);
        lemma_sold_on_last_day(series, last);
        assert(wanted(last));
        lemma_select_step(last as nat, wanted);
    }
}

/// In a series of increasing dates the positions still open on the last day
/// are one for every bar but the last: the return bought on bar `t` and sold
/// on the last bar is the pick at `t`.
pub proof fn lemma_hold_all_picks(series: Seq<Price>)
    requires
        dates_increasing(series),
        1 <= series.len() <= usize::MAX,
        total(series) <= usize::MAX,
    ensures
        picks_hold_all(series).len() == series.len() - 1,
        forall|t: int|
            0 <= t < series.len() - 1 ==> return_at(
                series,
                (#[trigger] picks_hold_all(series)[t]) as int,
            ) == (Return { start: t as usize, end: (series.len() - 1) as usize }),
{
    let n = series.len();
    let m: nat = (n - 1) as nat;
    lemma_hold_all_before(series, m);
    lemma_returns_before_len_step(m, n);
    assert forall|t: int| 0 <= t < n - 1 implies return_at(
        series,
        (#[trigger] picks_hold_all(series)[t]) as int,
    ) == (Return { start: t as usize, end: (n - 1) as usize }) by {
        lemma_return_at_rank(t as nat, (n - 1) as nat, n);
    }
}

/// The returns of year `y` are exactly the returns bought and sold in year
/// `y`: each of them is a return of the listing, none is listed twice, and a
/// return of the listing is among them where, and only where, both its days
/// are of year `y`.
pub proof fn lemma_year_returns_exact(series: Seq<Price>, y: i32, k: int)
    requires
        total(series) <= usize::MAX,
        0 <= k < total(series),
    ensures
        picks_active_year(series, y).contains(k as usize) <==> in_year(series, y, k),
        strictly_ascending(picks_active_year(series, y)),
        forall|t: int|
            0 <= t < picks_active_year(series, y).len() ==> (#[trigger] picks_active_year(
                series,
                y,
            )[t]) < total(series),
{
    let picks = picks_active_year(series, y);
    lemma_select(total(series), within_year(series, y));
    if picks.contains(k as usize) {
        let t = choose|t: int| 0 <= t < picks.len() && picks[t] == k as usize;
        assert(within_year(series, y)(picks[t] as int));
    }
    if in_year(series, y, k) {
        assert(within_year(series, y)(k));
    }
}

/// A return belongs to the year of its buying day where it is sold in the
/// same year, and to no year where it is sold in a later one: the returns
/// of all years together leave out every return that crosses a year's end.
pub proof fn lemma_year_returns_partition(series: Seq<Price>, y: i32, k: int)
    requires
        series.len() <= usize::MAX,
        total(series) <= usize::MAX,
        0 <= k < total(series),
    ensures
        picks_active_year(series, y).contains(k as usize) ==> y == series[return_at(
            series,
            k,
        ).start as int].date.year,
        series[return_at(series, k).start as int].date.year != series[return_at(
            series,
            k,
        ).end as int].date.year ==> !picks_active_year(series, y).contains(k as usize),
{
    lemma_year_returns_exact(series, y, k);
}

/// In a series of increasing dates the returns of a year sold on its last
/// trading day are the returns of the year sold on its last bar.
pub proof fn lemma_sold_on_year_close(series: Seq<Price>, y: i32, k: int)
    requires
        dates_increasing(series),
        series.len() <= usize::MAX,
        total(series) <= usize::MAX,
        0 <= k < total(series),
        picks_active_year(series, y).len() > 0,
    ensures
        closes_year(series, y)(k) <==> in_year(series, y, k) && return_at(series, k).end
            == last_bar(series, y),
{
    lemma_last_pick_closes_year(series, y);
    lemma_all_returns_bounds(series.len(), k);
    let end = return_at(series, k).end as int;
    let close = last_bar(series, y);
    if in_year(series, y, k) && end != close {
        assert(end < close);
        assert(series[end].date.before(series[close].date));
    }
}

/// The last trading day of a year is the latest selling day among the
/// returns of the year: some return of the year is sold on it, and none
/// later.
pub proof fn lemma_year_close_is_latest(series: Seq<Price>, y: i32, t: int)
    requires
        dates_increasing(series),
        series.len() <= usize::MAX,
        total(series) <= usize::MAX,
        0 <= t < picks_active_year(series, y).len(),
    ensures
        sold_on(series, year_close(series, y), picks_active_year(series, y).last() as int),
        !year_close(series, y).before(
            series[return_at(series, picks_active_year(series, y)[t] as int).end as int].date,
        ),
{
    let picks = picks_active_year(series, y);
    lemma_last_pick_closes_year(series, y);
    lemma_select(total(series), within_year(series, y));
    let k = picks[t] as int;
    assert(within_year(series, y)(k));
    lemma_all_returns_bounds(series.len(), k);
    let end = return_at(series, k).end as int;
    let close = last_bar(series, y);
    assert(end <= close);
    if end < close {
        assert(series[end].date.before(series[close].date));
    }
    Date::lemma_before_is_strict_total(series[end].date, series[close].date, series[end].date);
}

/// A year has returns of its own exactly where two bars are dated in it.
pub proof fn lemma_year_has_returns(series: Seq<Price>, y: i32)
    requires
        series.len() <= usize::MAX,
        total(series) <= usize::MAX,
    ensures
        has_pair(series, y) <==> picks_active_year(series, y).len() > 0,
{
    let n = series.len();
    let picks = picks_active_year(series, y);
    lemma_select(total(series), within_year(series, y));
    if has_pair(series, y) {
        let (i, j) = choose|i: int, j: int|
            0 <= i < j < series.len() && (#[trigger] series[i]).date.year == y && (
            #[trigger] series[j]).date.year == y;
        lemma_return_at_rank(i as nat, j as nat, n);
        let k = rank(i as nat, j as nat, n);
        assert(within_year(series, y)(k));
        assert(picks.contains(k as usize));
    }
    if picks.len() > 0 {
        let k = picks[0] as int;
        assert(within_year(series, y)(k));
        lemma_all_returns_bounds(n, k);
        let r = return_at(series, k);
        assert(series[r.start as int].date.year == y && series[r.end as int].date.year == y);
    }
}

} // verus!
