use fintech::date::Date;
use fintech::error::{Field, StatError, StockError};
use fintech::key::to_key;
use fintech::price::{Price, RawPrice};
use fintech::listing::Return;
use fintech::sample::YearSpan;
use fintech::stats::cal_statistic;
use fintech::stock::Stock;

fn bar(year: i32, month: u32, day: u32, close_adj: f64) -> Price {
    let word = close_adj.to_bits();
    Price::new(Date::new(year, month, day), word, word, word, word, word, 1000)
}

fn raw(date: &str, close_adj: f64) -> RawPrice {
    let word = close_adj.to_bits();
    RawPrice {
        date: date.to_string(),
        open: word,
        high: word,
        low: word,
        close: word,
        close_adj: word,
        volume: 1000,
    }
}

/// Bars on the first days of some months: 5 in 2019, 1 in 2020, 7 in 2021, 2 in 2022.
fn fifteen_bars() -> Vec<Price> {
    let mut bars = Vec::new();
    let mut price = 50.0;
    for (year, months) in [(2019, 5u32), (2020, 1), (2021, 7), (2022, 2)] {
        for month in 1..=months {
            price = price * 1.03 + f64::from(month) - 2.5;
            bars.push(bar(year, month, 1, price));
        }
    }
    bars
}

fn values(stock: &Stock) -> Vec<f64> {
    let adj = |i: usize| f64::from_bits(stock.data()[i].close_adj);
    stock.all_return().iter().map(|r| (adj(r.end) - adj(r.start)) / adj(r.start)).collect()
}

fn keys(stock: &Stock) -> Vec<u64> {
    values(stock).iter().map(|x| to_key(x.to_bits())).collect()
}

#[test]
fn number_of_returns_is_n_times_n_minus_one_over_two() {
    let bars = fifteen_bars();
    for n in 0..=bars.len() {
        let stock = Stock::new(&bars[..n]).unwrap();
        assert_eq!(stock.all_return().len(), n * n.saturating_sub(1) / 2);
    }
}

#[test]
fn empty_and_single_bar_series_have_an_empty_index() {
    let mut stock = Stock::new(&[]).unwrap();
    assert!(stock.all_return().is_empty());
    assert_eq!(stock.n_years(), 0);
    assert_eq!(stock.select_hold_all(), Vec::<usize>::new());
    assert_eq!(stock.stat_active_all(&[]), Err(StatError::InsufficientData));
    assert_eq!(stock.stat_hold_all(&[]), Err(StatError::InsufficientData));
    assert_eq!(stock.stat_active_year(&[]), vec![]);
    assert_eq!(stock.stat_hold_year(&[]), vec![]);
    assert_eq!(stock.cal_years_return(), vec![]);

    let mut stock = Stock::new(&[bar(2020, 3, 4, 10.0)]).unwrap();
    assert!(stock.all_return().is_empty());
    assert_eq!(stock.n_years(), 0);
    assert_eq!(stock.stat_active_all(&[]), Err(StatError::InsufficientData));
    assert_eq!(stock.stat_hold_all(&[]), Err(StatError::InsufficientData));
    assert_eq!(stock.cal_years_return(), vec![YearSpan { year: 2020, first: 0, last: 0 }]);
}

#[test]
fn two_bars_have_one_return() {
    let mut stock = Stock::new(&[bar(2020, 3, 4, 10.0), bar(2020, 3, 5, 11.0)]).unwrap();
    assert_eq!(stock.all_return(), &vec![Return { start: 0, end: 1 }]);
    let keys = keys(&stock);
    assert_eq!(stock.stat_active_all(&keys), Err(StatError::DegenerateVariance));
    assert_eq!(stock.stat_hold_all(&keys), Err(StatError::DegenerateVariance));
    assert_eq!(stock.n_years(), 1);
}

#[test]
fn every_return_is_bought_before_it_is_sold() {
    let stock = Stock::new(&fifteen_bars()).unwrap();
    let all = stock.all_return();
    for r in all.iter() {
        assert!(r.start < r.end);
        assert!(r.end < 15);
        assert!(stock.data()[r.start].date.is_before(&stock.data()[r.end].date));
        assert!(stock.data()[r.start].date < stock.data()[r.end].date);
    }
    for pair in all.windows(2) {
        assert!((pair[0].start, pair[0].end) < (pair[1].start, pair[1].end));
    }
}

#[test]
fn returns_of_a_year_are_the_returns_within_it() {
    let stock = Stock::new(&fifteen_bars()).unwrap();
    let all = stock.all_return();
    let yearly = stock.years_return();
    let years: Vec<i32> = yearly.iter().map(|g| g.year).collect();
    assert_eq!(years, vec![2019, 2021, 2022]);
    assert_eq!(stock.n_years(), 3);
    assert_eq!(yearly[0].picks.len(), 10);
    assert_eq!(yearly[1].picks.len(), 21);
    assert_eq!(yearly[2].picks.len(), 1);
    let mut in_some_year = 0;
    for group in yearly.iter() {
        let expected: Vec<usize> = (0..all.len())
            .filter(|k| {
                stock.data()[all[*k].start].date.year == group.year
                    && stock.data()[all[*k].end].date.year == group.year
            })
            .collect();
        assert_eq!(group.picks, expected);
        in_some_year += group.picks.len();
    }
    assert!(in_some_year < all.len());
}

#[test]
fn hold_all_is_every_return_sold_on_the_last_day() {
    let mut stock = Stock::new(&fifteen_bars()).unwrap();
    let picks = stock.select_hold_all();
    let all = stock.all_return();
    assert_eq!(picks.len(), 14);
    for (t, k) in picks.iter().enumerate() {
        assert_eq!(all[*k], Return { start: t, end: 14 });
    }
    let keys = keys(&stock);
    let sample: Vec<u64> = picks.iter().map(|k| keys[*k]).collect();
    assert_eq!(stock.stat_hold_all(&keys), cal_statistic(&sample));
    assert_eq!(stock.stat_hold_all(&keys).unwrap().count, 14);
}

#[test]
fn active_all_is_every_return() {
    let mut stock = Stock::new(&fifteen_bars()).unwrap();
    let keys = keys(&stock);
    let stat = stock.stat_active_all(&keys).unwrap();
    assert_eq!(stat.count, 105);
    assert_eq!(stat.min, *keys.iter().min().unwrap());
    assert_eq!(stat.max, *keys.iter().max().unwrap());
    assert_eq!(Ok(stat), cal_statistic(&keys));
}

#[test]
fn statistics_by_year() {
    let mut stock = Stock::new(&fifteen_bars()).unwrap();
    let keys = keys(&stock);
    let active = stock.stat_active_year(&keys);
    let years: Vec<i32> = active.iter().map(|(y, _)| *y).collect();
    assert_eq!(years, vec![2019, 2021, 2022]);
    assert_eq!(active[0].1.unwrap().count, 10);
    assert_eq!(active[1].1.unwrap().count, 21);
    assert_eq!(active[2].1, Err(StatError::DegenerateVariance));
    for (t, group) in stock.years_return().iter().enumerate() {
        let sample: Vec<u64> = group.picks.iter().map(|k| keys[*k]).collect();
        assert_eq!(active[t], (group.year, cal_statistic(&sample)));
    }
}

#[test]
fn hold_by_year_is_every_return_sold_on_the_last_day_of_the_year() {
    let mut stock = Stock::new(&fifteen_bars()).unwrap();
    let keys = keys(&stock);
    let groups = stock.select_hold_year();
    let all = stock.all_return().clone();
    let years: Vec<i32> = groups.iter().map(|g| g.year).collect();
    assert_eq!(years, vec![2019, 2021, 2022]);
    let picked: Vec<Vec<Return>> =
        groups.iter().map(|g| g.picks.iter().map(|k| all[*k]).collect()).collect();
    assert_eq!(
        picked[0],
        (0..4).map(|start| Return { start, end: 4 }).collect::<Vec<Return>>()
    );
    assert_eq!(
        picked[1],
        (6..12).map(|start| Return { start, end: 12 }).collect::<Vec<Return>>()
    );
    assert_eq!(picked[2], vec![Return { start: 13, end: 14 }]);
    let hold = stock.stat_hold_year(&keys);
    assert_eq!(hold.len(), 3);
    for (t, group) in groups.iter().enumerate() {
        let sample: Vec<u64> = group.picks.iter().map(|k| keys[*k]).collect();
        assert_eq!(hold[t], (group.year, cal_statistic(&sample)));
    }
    assert_eq!(hold[0].1.unwrap().count, 4);
    assert_eq!(hold[1].1.unwrap().count, 6);
    assert_eq!(hold[2].1, Err(StatError::DegenerateVariance));
}

#[test]
fn years_and_their_first_and_last_bars() {
    let mut stock = Stock::new(&fifteen_bars()).unwrap();
    assert!(!stock.has_years());
    stock.cal_years();
    assert!(stock.has_years());
    assert_eq!(stock.years(), &vec![2019, 2020, 2021, 2022]);
    assert_eq!(
        stock.cal_years_return(),
        vec![
            YearSpan { year: 2019, first: 0, last: 4 },
            YearSpan { year: 2020, first: 5, last: 5 },
            YearSpan { year: 2021, first: 6, last: 12 },
            YearSpan { year: 2022, first: 13, last: 14 },
        ]
    );
}

#[test]
fn queries_asked_twice_answer_alike_and_build_nothing_anew() {
    let mut stock = Stock::new(&fifteen_bars()).unwrap();
    assert!(stock.has_index());
    let keys = keys(&stock);
    let listing = stock.all_return().as_ptr();
    let groups = stock.years_return().as_ptr();

    let first = stock.stat_active_all(&keys);
    assert_eq!(stock.stat_active_all(&keys), first);
    let first = stock.stat_hold_all(&keys);
    assert_eq!(stock.stat_hold_all(&keys), first);
    let first = stock.stat_active_year(&keys);
    assert_eq!(stock.stat_active_year(&keys), first);
    let first = stock.stat_hold_year(&keys);
    assert_eq!(stock.stat_hold_year(&keys), first);
    stock.cal_return();
    stock.cal_return();

    assert_eq!(stock.all_return().as_ptr(), listing);
    assert_eq!(stock.years_return().as_ptr(), groups);
    assert!(!stock.has_years());

    let first = stock.cal_years_return();
    let years = stock.years().as_ptr();
    assert_eq!(stock.cal_years_return(), first);
    stock.cal_years();
    assert_eq!(stock.years().as_ptr(), years);
    assert_eq!(stock.all_return().as_ptr(), listing);
}

#[test]
fn new_names_the_series_symbol() {
    let stock = Stock::new(&fifteen_bars()).unwrap();
    assert_eq!(stock.symbol(), "symbol");
    assert_eq!(stock.data(), &fifteen_bars());
}

#[test]
fn new_refuses_dates_out_of_order() {
    let mut bars = fifteen_bars();
    bars.swap(7, 8);
    assert_eq!(Stock::new(&bars).err(), Some(StockError::UnorderedDates { row: 8 }));
    let mut bars = fifteen_bars();
    bars[3] = bars[2];
    assert_eq!(Stock::new(&bars).err(), Some(StockError::UnorderedDates { row: 3 }));
    let bars = [bar(2020, 1, 2, 1.0), bar(2020, 1, 1, 1.0), bar(2019, 1, 1, 1.0)];
    assert_eq!(Stock::new(&bars).err(), Some(StockError::UnorderedDates { row: 1 }));
}

#[test]
fn new_by_csv_reads_the_dates() {
    let rows = [raw("2020-01-01", 100.0), raw("2020-06-01", 110.0), raw("2021-01-01", 121.0)];
    let stock = Stock::new_by_csv("VTI", &rows).unwrap();
    assert_eq!(stock.symbol(), "VTI");
    assert!(!stock.data().is_empty());
    assert_eq!(
        stock.data(),
        &vec![bar(2020, 1, 1, 100.0), bar(2020, 6, 1, 110.0), bar(2021, 1, 1, 121.0)]
    );
    assert_eq!(stock.all_return().len(), 3);
    assert_eq!(stock.n_years(), 1);
}

#[test]
fn new_by_csv_names_the_row_it_cannot_read() {
    let rows = [raw("2020-01-01", 100.0), raw("2020-06-31", 110.0), raw("nonsense", 121.0)];
    assert_eq!(
        Stock::new_by_csv("VTI", &rows).err(),
        Some(StockError::MalformedInput { row: 1, field: Field::Date })
    );
    let rows = [raw("01/01/2020", 100.0)];
    assert_eq!(
        Stock::new_by_csv("VTI", &rows).err(),
        Some(StockError::MalformedInput { row: 0, field: Field::Date })
    );
}

#[test]
fn new_by_csv_refuses_dates_out_of_order() {
    let rows = [raw("2020-01-01", 100.0), raw("2020-06-01", 110.0), raw("2020-06-01", 121.0)];
    assert_eq!(
        Stock::new_by_csv("VTI", &rows).err(),
        Some(StockError::UnorderedDates { row: 2 })
    );
}

#[test]
fn from_rows_takes_rows_that_have_been_read() {
    let rows = [
        Some(bar(2020, 1, 1, 100.0)),
        Some(bar(2020, 6, 1, 110.0)),
        Some(bar(2021, 1, 1, 121.0)),
    ];
    let stock = Stock::from_rows("VTI", &rows).unwrap();
    assert_eq!(stock.symbol(), "VTI");
    assert_eq!(stock.data().len(), 3);
    assert_eq!(stock.all_return().len(), 3);
    assert!(stock.has_index());
    assert!(!stock.has_years());
    let stock = Stock::from_rows("none", &[]).unwrap();
    assert!(stock.data().is_empty());
}

#[test]
fn from_rows_names_the_first_row_that_was_not_read() {
    let rows = [Some(bar(2020, 1, 1, 100.0)), None, Some(bar(2019, 1, 1, 121.0)), None];
    assert_eq!(
        Stock::from_rows("VTI", &rows).err(),
        Some(StockError::MalformedInput { row: 1, field: Field::Date })
    );
    let rows = [None, Some(bar(2020, 1, 1, 100.0))];
    assert_eq!(
        Stock::from_rows("VTI", &rows).err(),
        Some(StockError::MalformedInput { row: 0, field: Field::Date })
    );
}

#[test]
fn from_rows_refuses_dates_out_of_order() {
    let rows = [
        Some(bar(2020, 1, 1, 100.0)),
        Some(bar(2020, 6, 1, 110.0)),
        Some(bar(2020, 5, 31, 121.0)),
    ];
    assert_eq!(
        Stock::from_rows("VTI", &rows).err(),
        Some(StockError::UnorderedDates { row: 2 })
    );
}

#[test]
fn price_from_raw_keeps_the_numbers() {
    let row = RawPrice {
        date: "2015-03-14".to_string(),
        open: 1,
        high: 2,
        low: 3,
        close: 4,
        close_adj: 5,
        volume: 6,
    };
    assert_eq!(
        Price::from_raw(&row),
        Some(Price::new(Date::new(2015, 3, 14), 1, 2, 3, 4, 5, 6))
    );
    let row = RawPrice { date: "14-03-2015".to_string(), ..row };
    assert_eq!(Price::from_raw(&row), None);
}

#[test]
fn dates_compare_by_year_then_month_then_day() {
    assert!(Date::new(2019, 12, 31).is_before(&Date::new(2020, 1, 1)));
    assert!(Date::new(2020, 1, 31).is_before(&Date::new(2020, 2, 1)));
    assert!(Date::new(2020, 2, 1).is_before(&Date::new(2020, 2, 2)));
    assert!(!Date::new(2020, 2, 2).is_before(&Date::new(2020, 2, 2)));
    assert!(!Date::new(2020, 2, 2).is_before(&Date::new(2020, 1, 31)));
}
