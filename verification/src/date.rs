//! Calendar dates as plain numbers.

use vstd::prelude::*;

verus! {

/// A calendar date. The fields are taken as given: the order and the year
/// are all the library reads from a date.
#[derive(Clone, Copy, Debug, PartialEq, Eq, PartialOrd, Ord, Hash, Structural)]
pub struct Date {
    pub year: i32,
    pub month: u32,
    pub day: u32,
}

/// What `chrono::NaiveDate::parse_from_str` makes of `text` under the format
/// `%Y-%m-%d`: the year, month and day of the date it returns, or `None`
/// where it returns an error.
pub uninterp spec fn parsed_ymd(text: Seq<char>) -> Option<(i32, u32, u32)>;

/// Calls `chrono::NaiveDate::parse_from_str(text, "%Y-%m-%d")` and reads the
/// year, month and day of the result through `chrono::Datelike`.
///
/// Trusted: the result is a function of `text` alone. The parser reads no
/// locale, clock or environment, and it returns an error instead of
/// panicking.
#[verifier::external_body]
fn chrono_parse_ymd(text: &str) -> (r: Option<(i32, u32, u32)>)
    ensures
        r == parsed_ymd(text@),
{
    match chrono::NaiveDate::parse_from_str(text, "%Y-%m-%d") {
        Ok(d) => Some((
            chrono::Datelike::year(&d),
            chrono::Datelike::month(&d),
            chrono::Datelike::day(&d),
        )),
        Err(_) => None,
    }
}

impl Date {
    /// The date that `text` spells in the form `YYYY-MM-DD`, if it spells one.
    pub open spec fn spec_parse(text: Seq<char>) -> Option<Date> {
        match parsed_ymd(text) {
            Some((year, month, day)) => Some(Date { year, month, day }),
            None => None,
        }
    }

    /// `self` is an earlier day than `other`.
    pub open spec fn before(self, other: Date) -> bool {
        ||| self.year < other.year
        ||| (self.year == other.year && self.month < other.month)
        ||| (self.year == other.year && self.month == other.month && self.day < other.day)
    }

    pub fn new(year: i32, month: u32, day: u32) -> (r: Date)
        ensures
            r == (Date { year, month, day }),
    {
        Date { year, month, day }
    }

    /// Reads a date written as `YYYY-MM-DD`.
    pub fn parse(text: &str) -> (r: Option<Date>)
        ensures
            r == Date::spec_parse(text@),
    {
        match chrono_parse_ymd(text) {
            Some((year, month, day)) => Some(Date { year, month, day }),
            None => None,
        }
    }

    pub fn is_before(&self, other: &Date) -> (r: bool)
        ensures
            r == self.before(*other),
    {
        if self.year != other.year {
            self.year < other.year
        } else if self.month != other.month {
            self.month < other.month
        } else {
            self.day < other.day
        }
    }

    /// The order of dates is strict: no date is before itself, and of two
    /// different dates exactly one is before the other.
    pub proof fn lemma_before_is_strict_total(a: Date, b: Date, c: Date)
        ensures
            !a.before(a),
            a.before(b) && b.before(c) ==> a.before(c),
            a.before(b) ==> !b.before(a),
            a != b ==> a.before(b) || b.before(a),
            a.before(b) ==> a.year <= b.year,
    {
    }
}

} // verus!
