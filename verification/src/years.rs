//! The calendar years of a series.

use vstd::prelude::*;
use crate::date::Date;
use crate::price::Price;

verus! {

/// Every bar is dated later than the bars before it.
pub open spec fn dates_increasing(series: Seq<Price>) -> bool {
    forall|i: int, j: int|
        0 <= i < j < series.len() ==> (#[trigger] series[i]).date.before((#[trigger] series[j]).date)
}

/// Some bar of the series is dated in year `y`.
pub open spec fn has_bar(series: Seq<Price>, y: i32) -> bool {
    exists|i: int| 0 <= i < series.len() && (#[trigger] series[i]).date.year == y
}

/// Two bars of the series are dated in year `y`.
pub open spec fn has_pair(series: Seq<Price>, y: i32) -> bool {
    exists|i: int, j: int|
        0 <= i < j < series.len() && (#[trigger] series[i]).date.year == y && (
        #[trigger] series[j]).date.year == y
}

/// `ys` lists years from the earliest to the latest, none twice.
pub open spec fn years_ascending(ys: Seq<i32>) -> bool {
    forall|a: int, b: int| 0 <= a < b < ys.len() ==> ys[a] < ys[b]
}

/// `ys` lists, in ascending order, the years in which the series has a bar.
pub open spec fn is_year_set(series: Seq<Price>, ys: Seq<i32>) -> bool {
    &&& years_ascending(ys)
    &&& forall|y: i32| #[trigger] ys.contains(y) <==> has_bar(series, y)
}

/// `ys` lists, in ascending order, the years in which the series has two
/// bars or more: the years that have a return of their own.
pub open spec fn is_year_keys(series: Seq<Price>, ys: Seq<i32>) -> bool {
    &&& years_ascending(ys)
    &&& forall|y: i32| #[trigger] ys.contains(y) <==> has_pair(series, y)
}

/// `i` is the first bar dated in year `y`.
pub open spec fn is_first_bar(series: Seq<Price>, y: i32, i: int) -> bool {
    &&& 0 <= i < series.len()
    &&& series[i].date.year == y
    &&& forall|e: int| 0 <= e < i ==> (#[trigger] series[e]).date.year != y
}

/// `i` is the last bar dated in year `y`.
pub open spec fn is_last_bar(series: Seq<Price>, y: i32, i: int) -> bool {
    &&& 0 <= i < series.len()
    &&& series[i].date.year == y
    &&& forall|l: int| i < l < series.len() ==> (#[trigger] series[l]).date.year != y
}

/// The years in which the series has a bar, in ascending order.
pub closed spec fn year_set(series: Seq<Price>) -> Seq<i32> {
    choose|ys: Seq<i32>| is_year_set(series, ys)
}

/// The years in which the series has two bars or more, in ascending order.
pub closed spec fn year_keys(series: Seq<Price>) -> Seq<i32> {
    choose|ys: Seq<i32>| is_year_keys(series, ys)
}

/// The position of the first bar dated in year `y`.
pub closed spec fn first_bar(series: Seq<Price>, y: i32) -> int {
    choose|i: int| is_first_bar(series, y, i)
}

/// The position of the last bar dated in year `y`.
pub closed spec fn last_bar(series: Seq<Price>, y: i32) -> int {
    choose|i: int| is_last_bar(series, y, i)
}

/// The last trading day of year `y`: the date of its last bar.
pub open spec fn year_close(series: Seq<Price>, y: i32) -> Date {
    series[last_bar(series, y)].date
}

/// Two ascending lists of years with the same members are the same list.
pub proof fn lemma_ascending_years_unique(a: Seq<i32>, b: Seq<i32>)
    requires
        years_ascending(a),
        years_ascending(b),
        forall|y: i32| #[trigger] a.contains(y) <==> b.contains(y),
    ensures
        a == b,
    decreases a.len(),
{
    if a.len() == 0 {
        if b.len() > 0 {
            assert(b.contains(b[0]));
            assert(a.contains(b[0]));
        }
        assert(a =~= b);
    } else {
        assert(a.contains(a.last()));
        assert(b.contains(a.last()));
        assert(b.contains(b.last()));
        assert(a.contains(b.last()));
        let in_b = choose|t: int| 0 <= t < b.len() && b[t] == a.last();
        let in_a = choose|t: int| 0 <= t < a.len() && a[t] == b.last();
        assert(a.last() == b.last());
        let a0 = a.drop_last();
        let b0 = b.drop_last();
        assert forall|y: i32| #[trigger] a0.contains(y) <==> b0.contains(y) by {
            if a0.contains(y) {
                let t = choose|t: int| 0 <= t < a0.len() && a0[t] == y;
                assert(a[t] == y);
                assert(a[t] < a[a.len() - 1]);
                assert(a.contains(y));
                let u = choose|u: int| 0 <= u < b.len() && b[u] == y;
                assert(u < b.len() - 1);
                assert(b0[u] == y);
            }
            if b0.contains(y) {
                let t = choose|t: int| 0 <= t < b0.len() && b0[t] == y;
                assert(b[t] == y);
                assert(b[t] < b[b.len() - 1]);
                assert(b.contains(y));
                assert(a.contains(y));
                let u = choose|u: int| 0 <= u < a.len() && a[u] == y;
                assert(u < a.len() - 1);
                assert(a0[u] == y);
            }
        }
        lemma_ascending_years_unique(a0, b0);
        assert(a =~= a0.push(a.last()));
        assert(b =~= b0.push(b.last()));
    }
}

/// A series has one list of years.
pub proof fn lemma_year_set_unique(series: Seq<Price>, ys: Seq<i32>)
    requires
        is_year_set(series, ys),
    ensures
        ys == year_set(series),
{
    lemma_ascending_years_unique(ys, year_set(series));
}

/// A series has one list of years with a return of their own.
pub proof fn lemma_year_keys_unique(series: Seq<Price>, ys: Seq<i32>)
    requires
        is_year_keys(series, ys),
    ensures
        ys == year_keys(series),
{
    lemma_ascending_years_unique(ys, year_keys(series));
}

/// A year has one first bar.
pub proof fn lemma_first_bar_unique(series: Seq<Price>, y: i32, i: int)
    requires
        is_first_bar(series, y, i),
    ensures
        i == first_bar(series, y),
{
}

/// A year has one last bar.
pub proof fn lemma_last_bar_unique(series: Seq<Price>, y: i32, i: int)
    requires
        is_last_bar(series, y, i),
    ensures
        i == last_bar(series, y),
{
}

/// Reading one more bar of a series of increasing dates adds its year to
/// the list where it differs from the year of the bar before, and nothing
/// otherwise.
pub proof fn lemma_year_set_grows(series: Seq<Price>, i: int, ys: Seq<i32>)
    requires
        dates_increasing(series),
        0 <= i < series.len(),
        is_year_set(series.take(i), ys),
        i > 0 ==> ys.len() > 0 && ys.last() == series[i - 1].date.year,
    ensures
        i == 0 || series[i - 1].date.year != series[i].date.year ==> is_year_set(
            series.take(i + 1),
            ys.push(series[i].date.year),
        ),
        i > 0 && series[i - 1].date.year == series[i].date.year ==> is_year_set(
            series.take(i + 1),
            ys,
        ),
{
    let seen = series.take(i);
    let next = series.take(i + 1);
    let y = series[i].date.year;
    assert(next[i] == series[i]);
    assert forall|e: int| 0 <= e < i implies seen[e] == #[trigger] next[e] by {}
    if i == 0 || series[i - 1].date.year != y {
        let grown = ys.push(y);
        assert forall|a: int, b: int| 0 <= a < b < grown.len() implies grown[a] < grown[b] by {
            if b == ys.len() {
                assert(ys.contains(ys[a]));
                let e = choose|e: int| 0 <= e < seen.len() && (#[trigger] seen[e]).date.year == ys[a];
                assert(seen[e] == series[e]);
                lemma_years_never_decrease(series, e, i - 1);
                lemma_years_never_decrease(series, i - 1, i);
                assert(ys[a] <= ys.last());
            }
        }
        assert forall|x: i32| #[trigger] grown.contains(x) <==> has_bar(next, x) by {
            if grown.contains(x) {
                let t = choose|t: int| 0 <= t < grown.len() && grown[t] == x;
                if t < ys.len() {
                    assert(ys.contains(x));
                    let e = choose|e: int| 0 <= e < seen.len() && (#[trigger] seen[e]).date.year == x;
                    assert(next[e].date.year == x);
                } else {
                    assert(next[i].date.year == x);
                }
            }
            if has_bar(next, x) {
                let e = choose|e: int| 0 <= e < next.len() && (#[trigger] next[e]).date.year == x;
                if e < i {
                    assert(seen[e].date.year == x);
                    assert(ys.contains(x));
                    let t = choose|t: int| 0 <= t < ys.len() && ys[t] == x;
                    assert(grown[t] == x);
                } else {
                    assert(grown[ys.len() as int] == x);
                }
            }
        }
    } else {
        assert forall|x: i32| #[trigger] ys.contains(x) <==> has_bar(next, x) by {
            if ys.contains(x) {
                let e = choose|e: int| 0 <= e < seen.len() && (#[trigger] seen[e]).date.year == x;
                assert(next[e].date.year == x);
            }
            if has_bar(next, x) {
                let e = choose|e: int| 0 <= e < next.len() && (#[trigger] next[e]).date.year == x;
                if e < i {
                    assert(seen[e].date.year == x);
                } else {
                    assert(seen[i - 1].date.year == x);
                }
            }
        }
    }
}

/// In a series of increasing dates the years never go back.
pub proof fn lemma_years_never_decrease(series: Seq<Price>, i: int, j: int)
    requires
        dates_increasing(series),
        0 <= i <= j < series.len(),
    ensures
        series[i].date.year <= series[j].date.year,
{
}

} // verus!
