//! Calendar dates of the proleptic Gregorian calendar.
//!
//! A [`Date`] holds year, month and day as plain numbers. Reading a date
//! from text and writing it out are left to the `chrono` crate.

use crate::text::{padded, Order};
use vstd::prelude::*;

verus! {

/// The first year a date can have.
pub const MIN_YEAR: i32 = -262_143;

/// The last year a date can have.
pub const MAX_YEAR: i32 = 262_142;

/// Whether February has 29 days in the year.
pub open spec fn is_leap_year(year: int) -> bool {
    year % 4 == 0 && (year % 100 != 0 || year % 400 == 0)
}

/// The number of days of a month.
pub open spec fn month_length(year: int, month: int) -> int {
    if month == 2 {
        if is_leap_year(year) {
            29
        } else {
            28
        }
    } else if month == 4 || month == 6 || month == 9 || month == 11 {
        30
    } else {
        31
    }
}

/// A day of the calendar.
#[derive(Clone, Copy, Debug, PartialEq, Eq, Structural)]
pub struct Date {
    pub year: i32,
    pub month: u32,
    pub day: u32,
}

/// The date that `chrono` reads from a text in its own notation, if it
/// reads one.
pub uninterp spec fn parsed_date(text: Seq<char>) -> Option<Date>;

/// The date that `chrono` reads from a text by a format string, if it
/// reads one.
pub uninterp spec fn parsed_date_with(text: Seq<char>, format: Seq<char>) -> Option<Date>;

/// A year as text: four digits, or more where it needs them, and a sign
/// before the years below 0 and above 9999.
pub open spec fn year_text(year: int) -> Seq<char> {
    if 0 <= year <= 9999 {
        padded(year as nat, 4)
    } else if year < 0 {
        seq!['-'] + padded((-year) as nat, 4)
    } else {
        seq!['+'] + padded(year as nat, 4)
    }
}

/// A date as text: the year, the month in two digits and the day in two
/// digits, with `-` between them.
pub open spec fn date_text(date: Date) -> Seq<char> {
    year_text(date.year as int) + seq!['-'] + padded(date.month as nat, 2) + seq!['-'] + padded(
        date.day as nat,
        2,
    )
}

/// The error type of `chrono`'s parsers.
#[verifier::external_type_specification]
#[verifier::external_body]
pub struct ExDateParseError(chrono::ParseError);

/// `NaiveDate`'s `FromStr`.
///
/// Trusted: the outcome depends on the text alone, and a date that comes
/// back exists in the calendar.
#[verifier::external_body]
fn outside_from_str(text: &str) -> (r: Result<Date, chrono::ParseError>)
    ensures
        match r {
            Ok(d) => parsed_date(text@) == Some(d) && d.valid(),
            Err(_) => parsed_date(text@) is None,
        },
{
    <chrono::NaiveDate as core::str::FromStr>::from_str(text).map(
        |d|
            Date {
                year: chrono::Datelike::year(&d),
                month: chrono::Datelike::month(&d),
                day: chrono::Datelike::day(&d),
            },
    )
}

/// `NaiveDate::parse_from_str`.
///
/// Trusted: the outcome depends on the text and the format alone, and a
/// date that comes back exists in the calendar.
#[verifier::external_body]
fn outside_parse_from_str(text: &str, format: &str) -> (r: Result<Date, chrono::ParseError>)
    ensures
        match r {
            Ok(d) => parsed_date_with(text@, format@) == Some(d) && d.valid(),
            Err(_) => parsed_date_with(text@, format@) is None,
        },
{
    chrono::NaiveDate::parse_from_str(text, format).map(
        |d|
            Date {
                year: chrono::Datelike::year(&d),
                month: chrono::Datelike::month(&d),
                day: chrono::Datelike::day(&d),
            },
    )
}

/// `NaiveDate`'s `Display`, on the date that `NaiveDate::from_ymd_opt`
/// makes of the three numbers.
///
/// Trusted: `from_ymd_opt` accepts every day that exists in the calendar
/// within the range of years, and the date is written as year, month and
/// day with `-` between them, the year with a sign where it is below 0 or
/// above 9999.
#[verifier::external_body]
fn outside_to_string(date: Date) -> (s: String)
    requires
        date.valid(),
    ensures
        s@ == date_text(date),
{
    match chrono::NaiveDate::from_ymd_opt(date.year, date.month, date.day) {
        Some(d) => d.to_string(),
        None => String::new(),
    }
}

impl Date {
    /// The day exists in the calendar and the year is in range.
    pub open spec fn valid(self) -> bool {
        &&& MIN_YEAR <= self.year <= MAX_YEAR
        &&& 1 <= self.month <= 12
        &&& 1 <= self.day <= month_length(self.year as int, self.month as int)
    }

    /// `self` is an earlier day than `other`.
    pub open spec fn before(self, other: Date) -> bool {
        ||| self.year < other.year
        ||| self.year == other.year && self.month < other.month
        ||| self.year == other.year && self.month == other.month && self.day < other.day
    }

    /// The three-way comparison of two days.
    pub open spec fn order_to(self, other: Date) -> Order {
        if self == other {
            Order::Same
        } else if self.before(other) {
            Order::Before
        } else {
            Order::After
        }
    }

    /// The date of the three numbers, if that day exists.
    pub fn from_ymd_opt(year: i32, month: u32, day: u32) -> (r: Option<Date>)
        ensures
            r == if (Date { year, month, day }).valid() {
                Some(Date { year, month, day })
            } else {
                None::<Date>
            },
    {
        if year < MIN_YEAR || year > MAX_YEAR || month < 1 || month > 12 || day < 1 {
            return None;
        }
        let shifted: u32 = (year + 262_400) as u32;
        let leap: bool = shifted % 4 == 0 && (shifted % 100 != 0 || shifted % 400 == 0);
        assert(leap == is_leap_year(year as int));
        let length: u32 = if month == 2 {
            if leap {
                29
            } else {
                28
            }
        } else if month == 4 || month == 6 || month == 9 || month == 11 {
            30
        } else {
            31
        };
        if day <= length {
            Some(Date { year, month, day })
        } else {
            None
        }
    }

    /// The date of the three numbers, which must name a day that exists.
    pub fn from_ymd(year: i32, month: u32, day: u32) -> (d: Date)
        requires
            (Date { year, month, day }).valid(),
        ensures
            d == (Date { year, month, day }),
    {
        Date { year, month, day }
    }

    /// Compares two days.
    pub fn compare(&self, other: &Date) -> (r: Order)
        ensures
            r == self.order_to(*other),
    {
        if self.year != other.year {
            if self.year < other.year {
                Order::Before
            } else {
                Order::After
            }
        } else if self.month != other.month {
            if self.month < other.month {
                Order::Before
            } else {
                Order::After
            }
        } else if self.day != other.day {
            if self.day < other.day {
                Order::Before
            } else {
                Order::After
            }
        } else {
            Order::Same
        }
    }

    /// Reads a date written as year, month and day with `-` between them.
    pub fn parse(text: &str) -> (r: Option<Date>)
        ensures
            r == parsed_date(text@),
            r matches Some(d) ==> d.valid(),
    {
        match outside_from_str(text) {
            Ok(d) => Some(d),
            Err(_) => None,
        }
    }

    /// Reads a date by a format string of `chrono`.
    pub fn parse_with(text: &str, format: &str) -> (r: Option<Date>)
        ensures
            r == parsed_date_with(text@, format@),
            r matches Some(d) ==> d.valid(),
    {
        match outside_parse_from_str(text, format) {
            Ok(d) => Some(d),
            Err(_) => None,
        }
    }

    /// The date as text.
    pub fn to_text(&self) -> (s: String)
        requires
            self.valid(),
        ensures
            s@ == date_text(*self),
    {
        outside_to_string(*self)
    }
}

} // verus!
