//! The price series of one instrument and the queries on its returns.

use vstd::prelude::*;
pub use crate::price::Price;
pub use crate::stats::Stat;
use crate::date::Date;
use crate::error::{Field, StatError, StockError};
use crate::index::{keys_of, ReturnIndex, YearReturns};
use crate::listing::{all_returns, lemma_all_returns_bounds, Return};
use crate::price::RawPrice;
use crate::sample::{
    closes_year, ends_on, lemma_last_pick_closes_year, lemma_year_has_returns, picks_active_year,
    picks_hold_all, picks_hold_year, return_at, stats_active_year, stats_hold_year, total,
    within_year, year_span, year_spans, YearSpan,
};
use crate::select::{
    gather, gather_values, keep, lemma_keep_of_select, lemma_keep_step, lemma_select,
    lemma_select_step, select,
};
use crate::stats::{cal_statistic, statistic};
use crate::years::{
    dates_increasing, has_bar, is_first_bar, is_year_keys, is_year_set, lemma_first_bar_unique,
    lemma_last_bar_unique, lemma_year_keys_unique, lemma_year_set_grows, lemma_year_set_unique,
    year_keys, year_set,
};

verus! {

/// A price series with the caches derived from it.
///
/// The series is fixed at construction. The return index and the list of
/// years are derived from it at most once each, kept for the life of the
/// value, and never changed afterwards.
#[derive(Debug)]
pub struct Stock {
    symbol: String,
    data: Vec<Price>,
    years: Option<Vec<i32>>,
    index: Option<ReturnIndex>,
}

impl View for Stock {
    type V = Seq<Price>;

    /// The series.
    closed spec fn view(&self) -> Seq<Price> {
        self.data@
    }
}

/// Row `row` is the first that is not dated later than the row before it.
pub open spec fn is_first_unordered(series: Seq<Price>, row: int) -> bool {
    &&& 1 <= row < series.len()
    &&& !series[row - 1].date.before(series[row].date)
    &&& forall|i: int| 1 <= i < row ==> (#[trigger] series[i - 1]).date.before(series[i].date)
}

/// Every row has been read.
pub open spec fn all_read(rows: Seq<Option<Price>>) -> bool {
    forall|i: int| 0 <= i < rows.len() ==> (#[trigger] rows[i]) is Some
}

/// Row `row` is the first that could not be read.
pub open spec fn is_first_unread(rows: Seq<Option<Price>>, row: int) -> bool {
    &&& 0 <= row < rows.len()
    &&& rows[row] is None
    &&& forall|i: int| 0 <= i < row ==> (#[trigger] rows[i]) is Some
}

/// The bars of rows that have all been read.
pub open spec fn bars_of(rows: Seq<Option<Price>>) -> Seq<Price> {
    Seq::new(rows.len(), |i: int| rows[i]->0)
}

/// What reading the date of each row gives.
pub open spec fn read_rows(rows: Seq<RawPrice>) -> Seq<Option<Price>> {
    Seq::new(rows.len(), |i: int| Price::spec_from_raw(rows[i]))
}

/// Looks for the first row that is not dated later than the row before it.
fn first_unordered(data: &Vec<Price>) -> (r: Option<usize>)
    ensures
        r is None <==> dates_increasing(data@),
        r matches Some(row) ==> is_first_unordered(data@, row as int),
{
    if data.len() == 0 {
        return None;
    }
    let mut i: usize = 1;
    while i < data.len()
        invariant
            1 <= i <= data.len(),
            dates_increasing(data@.take(i as int)),
            forall|e: int| 1 <= e < i ==> (#[trigger] data@[e - 1]).date.before(data@[e].date),
        decreases data.len() - i,
    {
        if !data[i - 1].date.is_before(&data[i].date) {
            proof {
                if dates_increasing(data@) {
                    assert(data@[i - 1].date.before(data@[i as int].date));
                }
            }
            return Some(i);
        }
        proof {
            let next = data@.take(i + 1);
            assert forall|a: int, b: int| 0 <= a < b < next.len() implies (#[trigger] next[a]).date.before(
                (#[trigger] next[b]).date,
            ) by {
                if b < i {
                    assert(data@.take(i as int)[a].date.before(data@.take(i as int)[b].date));
                } else if a < i - 1 {
                    assert(data@.take(i as int)[a].date.before(data@.take(i as int)[i - 1].date));
                }
            }
        }
        i = i + 1;
    }
    assert(data@.take(i as int) =~= data@);
    None
}

/// Keeps the picks whose return is sold on `day`.
fn keep_sold_on(data: &Vec<Price>, all: &Vec<Return>, picks: &Vec<usize>, day: Date) -> (kept: Vec<
    usize,
>)
    requires
        all@ == all_returns(data@.len()),
        forall|t: int| 0 <= t < picks.len() ==> picks[t] < all.len(),
    ensures
        kept@ == keep(picks@, ends_on(data@, day)),
{
    let mut kept: Vec<usize> = Vec::new();
    let mut t: usize = 0;
    while t < picks.len()
        invariant
            t <= picks.len(),
            data@.len() == data.len(),
            all@ == all_returns(data@.len()),
            forall|u: int| 0 <= u < picks.len() ==> picks[u] < all.len(),
            kept@ == keep(picks@.take(t as int), ends_on(data@, day)),
        decreases picks.len() - t,
    {
        let k: usize = picks[t];
        proof {
            lemma_all_returns_bounds(data@.len(), k as int);
            lemma_keep_step(picks@.take(t as int), k, ends_on(data@, day));
            assert(picks@.take(t + 1) =~= picks@.take(t as int).push(k));
        }
        if data[all[k].end].date == day {
            kept.push(k);
        }
        t = t + 1;
    }
    assert(picks@.take(t as int) =~= picks@);
    kept
}

/// Finds the first and the last bar dated in year `y`.
fn span_of(data: &Vec<Price>, y: i32) -> (span: YearSpan)
    requires
        has_bar(data@, y),
    ensures
        span == year_span(data@, y),
{
    let mut first: usize = 0;
    let mut last: usize = 0;
    let mut found: bool = false;
    let mut i: usize = 0;
    while i < data.len()
        invariant
            i <= data.len(),
            !found ==> forall|e: int| 0 <= e < i ==> (#[trigger] data@[e]).date.year != y,
            found ==> first <= last < i && is_first_bar(data@, y, first as int) && data@[last as int].date.year
                == y && forall|l: int| last < l < i ==> (#[trigger] data@[l]).date.year != y,
        decreases data.len() - i,
    {
        if data[i].date.year == y {
            if !found {
                first = i;
                found = true;
            }
            last = i;
        }
        i = i + 1;
    }
    proof {
        if !found {
            let e = choose|e: int| 0 <= e < data@.len() && (#[trigger] data@[e]).date.year == y;
            assert(data@[e].date.year != y);
        }
        lemma_first_bar_unique(data@, y, first as int);
        lemma_last_bar_unique(data@, y, last as int);
    }
    YearSpan { year: y, first, last }
}

impl Stock {
    /// What holds of every `Stock`: the dates increase, and a cache that has
    /// been built is the one that belongs to the series.
    #[verifier::type_invariant]
    pub closed spec fn well_formed(&self) -> bool {
        &&& dates_increasing(self.data@)
        &&& self.years matches Some(ys) ==> is_year_set(self.data@, ys@)
        &&& self.index matches Some(ix) ==> ix.describes(self.data@)
    }

    /// The name of the instrument.
    pub closed spec fn spec_symbol(&self) -> Seq<char> {
        self.symbol@
    }

    /// The return index has been built.
    pub closed spec fn index_built(&self) -> bool {
        self.index is Some
    }

    /// The list of years has been built.
    pub closed spec fn years_built(&self) -> bool {
        self.years is Some
    }

    /// `post` is `pre` after an operation that needs the return index: the
    /// same series under the same name, with the index built. Where `pre`
    /// had the index already, nothing at all has changed.
    pub open spec fn indexed_from(post: Stock, pre: Stock) -> bool {
        &&& post@ == pre@
        &&& post.spec_symbol() == pre.spec_symbol()
        &&& post.index_built()
        &&& post.years_built() == pre.years_built()
        &&& pre.index_built() ==> post == pre
    }

    /// `post` is `pre` after an operation that needs the list of years: the
    /// same series under the same name, with the list built. Where `pre`
    /// had the list already, nothing at all has changed.
    pub open spec fn dated_from(post: Stock, pre: Stock) -> bool {
        &&& post@ == pre@
        &&& post.spec_symbol() == pre.spec_symbol()
        &&& post.years_built()
        &&& post.index_built() == pre.index_built()
        &&& pre.years_built() ==> post == pre
    }

    /// Asked twice, a query on the returns finds the index built the second
    /// time: the second call leaves the value exactly as the first call left
    /// it, and on the same values it answers as the first call did.
    ///
    /// `first` is the value before the first call, `second` the value between
    /// the calls, `third` the value after the second.
    pub proof fn lemma_asked_twice(first: Stock, second: Stock, third: Stock, values: Seq<u64>)
        requires
            Stock::indexed_from(second, first),
            Stock::indexed_from(third, second),
        ensures
            third == second,
            picks_hold_all(second@) == picks_hold_all(first@),
            statistic(gather(values, picks_hold_all(second@))) == statistic(
                gather(values, picks_hold_all(first@)),
            ),
            stats_active_year(second@, values) == stats_active_year(first@, values),
            stats_hold_year(second@, values) == stats_hold_year(first@, values),
            year_keys(second@) == year_keys(first@),
    {
    }

    /// Asked twice, a query on the years finds their list built the second
    /// time: the second call leaves the value exactly as the first call left
    /// it, and answers as the first call did.
    pub proof fn lemma_years_asked_twice(first: Stock, second: Stock, third: Stock)
        requires
            Stock::dated_from(second, first),
            Stock::dated_from(third, second),
        ensures
            third == second,
            year_set(second@) == year_set(first@),
            year_spans(second@) == year_spans(first@),
    {
    }

    /// The two caches are independent: building the one neither builds nor
    /// changes the other.
    pub proof fn lemma_caches_independent(first: Stock, second: Stock)
        ensures
            Stock::indexed_from(second, first) ==> second.years_built() == first.years_built(),
            Stock::dated_from(second, first) ==> second.index_built() == first.index_built(),
    {
    }

    /// Takes a series over, checks its dates and builds its return index.
    fn assemble(symbol: String, data: Vec<Price>) -> (r: Result<Stock, StockError>)
        ensures
            match r {
                Ok(stock) => {
                    &&& dates_increasing(data@)
                    &&& stock@ == data@
                    &&& stock.spec_symbol() == symbol@
                    &&& stock.index_built()
                    &&& !stock.years_built()
                },
                Err(StockError::UnorderedDates { row }) => is_first_unordered(data@, row as int),
                Err(StockError::MalformedInput { .. }) => false,
            },
    {
        match first_unordered(&data) {
            Some(row) => Err(StockError::UnorderedDates { row }),
            None => {
                let index = ReturnIndex::build(&data);
                Ok(Stock { symbol, data, years: None, index: Some(index) })
            },
        }
    }

    /// A series under the name `"symbol"`, with its return index built.
    ///
    /// The bars must be dated in strictly increasing order: a series with a
    /// bar that is not later than the bar before it is refused, with the
    /// first such row. Series of no bar or of one bar are in order, and
    /// their index is empty.
    pub fn new(data: &[Price]) -> (r: Result<Stock, StockError>)
        ensures
            match r {
                Ok(stock) => {
                    &&& dates_increasing(data@)
                    &&& stock@ == data@
                    &&& stock.spec_symbol() == "symbol"@
                    &&& stock.index_built()
                    &&& !stock.years_built()
                },
                Err(StockError::UnorderedDates { row }) => is_first_unordered(data@, row as int),
                Err(StockError::MalformedInput { .. }) => false,
            },
    {
        let mut copy: Vec<Price> = Vec::new();
        let mut i: usize = 0;
        while i < data.len()
            invariant
                i <= data.len(),
                copy@ == data@.take(i as int),
            decreases data.len() - i,
        {
            copy.push(data[i]);
            i = i + 1;
            assert(copy@ =~= data@.take(i as int));
        }
        assert(data@.take(i as int) =~= data@);
        Stock::assemble("symbol".to_owned(), copy)
    }

    /// A series under the name `symbol`, from rows that have been read
    /// already: `None` stands for a row whose date could not be read.
    ///
    /// Fails on the first such row, naming the row and the field. Where every
    /// row has been read, the result is that of `new` on the bars, under the
    /// name `symbol`.
    pub fn from_rows(symbol: &str, rows: &[Option<Price>]) -> (r: Result<Stock, StockError>)
        ensures
            match r {
                Ok(stock) => {
                    &&& all_read(rows@)
                    &&& dates_increasing(bars_of(rows@))
                    &&& stock@ == bars_of(rows@)
                    &&& stock.spec_symbol() == symbol@
                    &&& stock.index_built()
                    &&& !stock.years_built()
                },
                Err(StockError::MalformedInput { row, field }) => {
                    &&& field == Field::Date
                    &&& is_first_unread(rows@, row as int)
                },
                Err(StockError::UnorderedDates { row }) => {
                    &&& all_read(rows@)
                    &&& is_first_unordered(bars_of(rows@), row as int)
                },
            },
    {
        let mut data: Vec<Price> = Vec::new();
        let mut i: usize = 0;
        while i < rows.len()
            invariant
                i <= rows.len(),
                all_read(rows@.take(i as int)),
                data@ == bars_of(rows@.take(i as int)),
            decreases rows.len() - i,
        {
            match rows[i] {
                Some(price) => {
                    data.push(price);
                },
                None => {
                    proof {
                        assert forall|e: int| 0 <= e < i implies (#[trigger] rows@[e]) is Some by {
                            assert(rows@.take(i as int)[e] == rows@[e]);
                        }
                    }
                    return Err(StockError::MalformedInput { row: i, field: Field::Date });
                },
            }
            i = i + 1;
            proof {
                let seen = rows@.take(i as int);
                assert forall|e: int| 0 <= e < seen.len() implies (#[trigger] seen[e]) is Some by {
                    if e < i - 1 {
                        assert(rows@.take(i - 1)[e] == seen[e]);
                    }
                }
                assert(data@ =~= bars_of(seen)) by {
                    assert forall|e: int| 0 <= e < i - 1 implies data@[e] == bars_of(seen)[e] by {
                        assert(rows@.take(i - 1)[e] == seen[e]);
                        assert(bars_of(rows@.take(i - 1))[e] == data@[e]);
                    }
                }
            }
        }
        assert(rows@.take(i as int) =~= rows@);
        Stock::assemble(symbol.to_owned(), data)
    }

    /// A series under the name `symbol`, read from rows whose dates are
    /// still text of the form `YYYY-MM-DD`: `from_rows` on what
    /// `Price::from_raw` reads from each row.
    pub fn new_by_csv(symbol: &str, rows: &[RawPrice]) -> (r: Result<Stock, StockError>)
        ensures
            match r {
                Ok(stock) => {
                    &&& all_read(read_rows(rows@))
                    &&& dates_increasing(bars_of(read_rows(rows@)))
                    &&& stock@ == bars_of(read_rows(rows@))
                    &&& stock.spec_symbol() == symbol@
                    &&& stock.index_built()
                    &&& !stock.years_built()
                },
                Err(StockError::MalformedInput { row, field }) => {
                    &&& field == Field::Date
                    &&& is_first_unread(read_rows(rows@), row as int)
                },
                Err(StockError::UnorderedDates { row }) => {
                    &&& all_read(read_rows(rows@))
                    &&& is_first_unordered(bars_of(read_rows(rows@)), row as int)
                },
            },
    {
        let mut read: Vec<Option<Price>> = Vec::new();
        let mut i: usize = 0;
        while i < rows.len()
            invariant
                i <= rows.len(),
                read@ == read_rows(rows@.take(i as int)),
            decreases rows.len() - i,
        {
            read.push(Price::from_raw(&rows[i]));
            i = i + 1;
            assert(read@ =~= read_rows(rows@.take(i as int))) by {
                assert forall|e: int| 0 <= e < i - 1 implies read@[e] == read_rows(
                    rows@.take(i as int),
                )[e] by {
                    assert(read_rows(rows@.take(i - 1))[e] == read@[e]);
                }
            }
        }
        assert(rows@.take(i as int) =~= rows@);
        Stock::from_rows(symbol, read.as_slice())
    }

    /// The name of the instrument.
    pub fn symbol(&self) -> (r: &str)
        ensures
            r@ == self.spec_symbol(),
    {
        self.symbol.as_str()
    }

    /// The series.
    pub fn data(&self) -> (r: &Vec<Price>)
        ensures
            r@ == self@,
            dates_increasing(self@),
            self@.len() <= usize::MAX,
    {
        proof {
            use_type_invariant(self);
        }
        assert(self.data@.len() == self.data.len());
        &self.data
    }

    /// Whether the return index has been built.
    pub fn has_index(&self) -> (r: bool)
        ensures
            r == self.index_built(),
    {
        self.index.is_some()
    }

    /// Whether the list of years has been built.
    pub fn has_years(&self) -> (r: bool)
        ensures
            r == self.years_built(),
    {
        self.years.is_some()
    }

    /// Builds the return index, unless it has been built: a second call
    /// returns at once and changes nothing.
    pub fn cal_return(&mut self)
        ensures
            Stock::indexed_from(*final(self), *old(self)),
    {
        if self.index.is_some() {
            return ;
        }
        proof {
            use_type_invariant(&*self);
        }
        let index = ReturnIndex::build(&self.data);
        self.index = Some(index);
    }

    /// Builds the list of years, unless it has been built: a second call
    /// returns at once and changes nothing.
    pub fn cal_years(&mut self)
        ensures
            Stock::dated_from(*final(self), *old(self)),
    {
        if self.years.is_some() {
            return ;
        }
        proof {
            use_type_invariant(&*self);
        }
        let mut years: Vec<i32> = Vec::new();
        let mut i: usize = 0;
        while i < self.data.len()
            invariant
                i <= self.data.len(),
                dates_increasing(self.data@),
                is_year_set(self.data@.take(i as int), years@),
                i > 0 ==> years@.len() > 0 && years@.last() == self.data@[i - 1].date.year,
            decreases self.data.len() - i,
        {
            let y: i32 = self.data[i].date.year;
            let ghost before = years@;
            if i == 0 || self.data[i - 1].date.year != y {
                years.push(y);
            }
            proof {
                lemma_year_set_grows(self.data@, i as int, before);
            }
            i = i + 1;
        }
        assert(self.data@.take(i as int) =~= self.data@);
        self.years = Some(years);
    }

    /// Every return of the series, by buying day and then by selling day.
    pub fn all_return(&self) -> (r: &Vec<Return>)
        requires
            self.index_built(),
        ensures
            r@ == all_returns(self@.len()),
            total(self@) <= usize::MAX,
    {
        proof {
            use_type_invariant(self);
        }
        let all = &self.index.as_ref().unwrap().all;
        assert(all@.len() == all.len());
        all
    }

    /// The buying and the selling date of the return listed at `place`: two
    /// dates of the series, the first before the second.
    pub fn dates_at(&self, place: usize) -> (r: (Date, Date))
        requires
            self.index_built(),
            place < total(self@),
        ensures
            r.0 == self@[return_at(self@, place as int).start as int].date,
            r.1 == self@[return_at(self@, place as int).end as int].date,
            r.0.before(r.1),
    {
        let data = self.data();
        let all = self.all_return();
        proof {
            lemma_all_returns_bounds(data@.len(), place as int);
        }
        (data[all[place].start].date, data[all[place].end].date)
    }

    /// The years with a return of their own, in ascending order, each with
    /// the returns bought and sold in it.
    pub fn years_return(&self) -> (r: &Vec<YearReturns>)
        requires
            self.index_built(),
        ensures
            keys_of(r@) == year_keys(self@),
            is_year_keys(self@, year_keys(self@)),
            forall|t: int|
                0 <= t < r@.len() ==> (#[trigger] r@[t]).picks@ == picks_active_year(
                    self@,
                    r@[t].year,
                ),
            total(self@) <= usize::MAX,
    {
        proof {
            use_type_invariant(self);
            lemma_year_keys_unique(self@, self.index->0.keys());
        }
        let index = self.index.as_ref().unwrap();
        assert(index.all@.len() == index.all.len());
        &index.yearly
    }

    /// The years in which the series has a bar, in ascending order.
    pub fn years(&self) -> (r: &Vec<i32>)
        requires
            self.years_built(),
        ensures
            r@ == year_set(self@),
            is_year_set(self@, year_set(self@)),
    {
        proof {
            use_type_invariant(self);
            lemma_year_set_unique(self@, self.years->0@);
        }
        self.years.as_ref().unwrap()
    }

    /// The number of years with a return of their own.
    pub fn n_years(&self) -> (r: usize)
        requires
            self.index_built(),
        ensures
            r == year_keys(self@).len(),
    {
        self.years_return().len()
    }

    /// The returns of positions still open on the last day of the series:
    /// the places, in the listing of all returns, of those sold on the date
    /// of the last bar. A series without bars has none.
    pub fn select_hold_all(&mut self) -> (picks: Vec<usize>)
        ensures
            Stock::indexed_from(*final(self), *old(self)),
            picks@ == picks_hold_all(old(self)@),
            total(old(self)@) <= usize::MAX,
    {
        self.cal_return();
        let data = self.data();
        let all = self.all_return();
        let mut picks: Vec<usize> = Vec::new();
        if data.len() == 0 {
            return picks;
        }
        let day: Date = data[data.len() - 1].date;
        let mut k: usize = 0;
        while k < all.len()
            invariant
                k <= all.len(),
                data@.len() == data.len(),
                all@ == all_returns(data@.len()),
                picks@ == select(k as nat, ends_on(data@, day)),
            decreases all.len() - k,
        {
            proof {
                lemma_all_returns_bounds(data@.len(), k as int);
                lemma_select_step(k as nat, ends_on(data@, day));
            }
            if data[all[k].end].date == day {
                picks.push(k);
            }
            k = k + 1;
        }
        picks
    }

    /// For every year with a return of its own, in ascending order, the
    /// returns bought in it and sold on its last trading day.
    pub fn select_hold_year(&mut self) -> (groups: Vec<YearReturns>)
        ensures
            Stock::indexed_from(*final(self), *old(self)),
            keys_of(groups@) == year_keys(old(self)@),
            forall|t: int|
                0 <= t < groups@.len() ==> (#[trigger] groups@[t]).picks@ == picks_hold_year(
                    old(self)@,
                    groups@[t].year,
                ),
            total(old(self)@) <= usize::MAX,
    {
        self.cal_return();
        let data = self.data();
        let all = self.all_return();
        let yearly = self.years_return();
        let mut groups: Vec<YearReturns> = Vec::new();
        let mut t: usize = 0;
        while t < yearly.len()
            invariant
                t <= yearly.len(),
                data@.len() == data.len(),
                all@.len() == all.len(),
                all@ == all_returns(data@.len()),
                keys_of(yearly@) == year_keys(data@),
                is_year_keys(data@, year_keys(data@)),
                forall|u: int|
                    0 <= u < yearly@.len() ==> (#[trigger] yearly@[u]).picks@ == picks_active_year(
                        data@,
                        yearly@[u].year,
                    ),
                groups@.len() == t,
                forall|u: int|
                    0 <= u < t ==> (#[trigger] groups@[u]).year == yearly@[u].year && groups@[u].picks@
                        == picks_hold_year(data@, yearly@[u].year),
            decreases yearly.len() - t,
        {
            let y: i32 = yearly[t].year;
            let picks = &yearly[t].picks;
            proof {
                assert(keys_of(yearly@)[t as int] == y);
                assert(year_keys(data@).contains(y));
                lemma_year_has_returns(data@, y);
                lemma_select(total(data@), within_year(data@, y));
                lemma_last_pick_closes_year(data@, y);
            }
            let last: usize = picks[picks.len() - 1];
            proof {
                lemma_all_returns_bounds(data@.len(), last as int);
            }
            let day: Date = data[all[last].end].date;
            let kept = keep_sold_on(data, all, picks, day);
            proof {
                lemma_keep_of_select(
                    total(data@),
                    within_year(data@, y),
                    ends_on(data@, day),
                    closes_year(data@, y),
                );
            }
            groups.push(YearReturns { year: y, picks: kept });
            t = t + 1;
        }
        proof {
            assert(keys_of(groups@) =~= keys_of(yearly@));
        }
        groups
    }

    /// The statistics over the value of every return.
    ///
    /// `values` holds, for each return in the order of the listing, the key
    /// of its value. A series of fewer than two bars has no return and is
    /// refused as `InsufficientData`; a series of two bars has one and is
    /// refused as `DegenerateVariance`.
    pub fn stat_active_all(&mut self, values: &[u64]) -> (r: Result<Stat, StatError>)
        requires
            values@.len() == total(old(self)@),
        ensures
            Stock::indexed_from(*final(self), *old(self)),
            r == statistic(values@),
    {
        self.cal_return();
        cal_statistic(values)
    }

    /// The statistics over the values of the returns of positions still
    /// open on the last day of the series. `values` is as for
    /// `stat_active_all`.
    pub fn stat_hold_all(&mut self, values: &[u64]) -> (r: Result<Stat, StatError>)
        requires
            values@.len() == total(old(self)@),
        ensures
            Stock::indexed_from(*final(self), *old(self)),
            r == statistic(gather(values@, picks_hold_all(old(self)@))),
    {
        let picks = self.select_hold_all();
        proof {
            if old(self)@.len() > 0 {
                lemma_select(total(old(self)@), ends_on(old(self)@, old(self)@.last().date));
            }
        }
        let sample = gather_values(values, &picks);
        cal_statistic(sample.as_slice())
    }

    /// For every year with a return of its own, in ascending order, the
    /// statistics over the values of the returns bought and sold in it, or
    /// why that year has none. `values` is as for `stat_active_all`.
    pub fn stat_active_year(&mut self, values: &[u64]) -> (r: Vec<(i32, Result<Stat, StatError>)>)
        requires
            values@.len() == total(old(self)@),
        ensures
            Stock::indexed_from(*final(self), *old(self)),
            r@ == stats_active_year(old(self)@, values@),
    {
        self.cal_return();
        let yearly = self.years_return();
        let mut stats: Vec<(i32, Result<Stat, StatError>)> = Vec::new();
        let mut t: usize = 0;
        while t < yearly.len()
            invariant
                t <= yearly.len(),
                values@.len() == total(self@),
                total(self@) <= usize::MAX,
                keys_of(yearly@) == year_keys(self@),
                forall|u: int|
                    0 <= u < yearly@.len() ==> (#[trigger] yearly@[u]).picks@ == picks_active_year(
                        self@,
                        yearly@[u].year,
                    ),
                stats@ == stats_active_year(self@, values@).take(t as int),
            decreases yearly.len() - t,
        {
            let y: i32 = yearly[t].year;
            proof {
                assert(keys_of(yearly@)[t as int] == y);
                lemma_select(total(self@), within_year(self@, y));
            }
            let sample = gather_values(values, &yearly[t].picks);
            stats.push((y, cal_statistic(sample.as_slice())));
            t = t + 1;
            assert(stats@ =~= stats_active_year(self@, values@).take(t as int));
        }
        assert(stats_active_year(self@, values@).take(t as int) =~= stats_active_year(
            self@,
            values@,
        ));
        stats
    }

    /// For every year with a return of its own, in ascending order, the
    /// statistics over the values of the returns bought in it and sold on
    /// its last trading day, or why that year has none. `values` is as for
    /// `stat_active_all`.
    pub fn stat_hold_year(&mut self, values: &[u64]) -> (r: Vec<(i32, Result<Stat, StatError>)>)
        requires
            values@.len() == total(old(self)@),
        ensures
            Stock::indexed_from(*final(self), *old(self)),
            r@ == stats_hold_year(old(self)@, values@),
    {
        let groups = self.select_hold_year();
        let mut stats: Vec<(i32, Result<Stat, StatError>)> = Vec::new();
        let mut t: usize = 0;
        while t < groups.len()
            invariant
                t <= groups.len(),
                values@.len() == total(self@),
                total(self@) <= usize::MAX,
                keys_of(groups@) == year_keys(self@),
                forall|u: int|
                    0 <= u < groups@.len() ==> (#[trigger] groups@[u]).picks@ == picks_hold_year(
                        self@,
                        groups@[u].year,
                    ),
                stats@ == stats_hold_year(self@, values@).take(t as int),
            decreases groups.len() - t,
        {
            let y: i32 = groups[t].year;
            proof {
                assert(keys_of(groups@)[t as int] == y);
                lemma_select(total(self@), closes_year(self@, y));
            }
            let sample = gather_values(values, &groups[t].picks);
            stats.push((y, cal_statistic(sample.as_slice())));
            t = t + 1;
            assert(stats@ =~= stats_hold_year(self@, values@).take(t as int));
        }
        assert(stats_hold_year(self@, values@).take(t as int) =~= stats_hold_year(self@, values@));
        stats
    }

    /// For every year of the series, in ascending order, its first and its
    /// last bar: the two bars between which the return of the year is taken.
    /// A year with a single bar has both on that bar.
    pub fn cal_years_return(&mut self) -> (r: Vec<YearSpan>)
        ensures
            Stock::dated_from(*final(self), *old(self)),
            r@ == year_spans(old(self)@),
    {
        self.cal_years();
        let data = self.data();
        let years = self.years();
        let mut spans: Vec<YearSpan> = Vec::new();
        let mut t: usize = 0;
        while t < years.len()
            invariant
                t <= years.len(),
                years@ == year_set(data@),
                is_year_set(data@, year_set(data@)),
                spans@ == year_spans(data@).take(t as int),
            decreases years.len() - t,
        {
            proof {
                assert(years@.contains(years@[t as int]));
            }
            spans.push(span_of(data, years[t]));
            t = t + 1;
            assert(spans@ =~= year_spans(data@).take(t as int));
        }
        assert(year_spans(data@).take(t as int) =~= year_spans(data@));
        spans
    }
}

} // verus!
