//! Calendar dates, their text form, and the chrono calls that read and write it.

use chrono::Datelike;
use vstd::prelude::*;

use crate::text::{all_digits, decimal, decimal_value, is_digit};
use crate::text_laws::{law_digits_count_by_their_place, law_numerals_are_canonical};

verus! {

/// The first year that a date can have.
pub const MIN_YEAR: i32 = -262143;

/// The last year that a date can have.
pub const MAX_YEAR: i32 = 262142;

/// How dates are written in rotated file names.
pub const DATE_FORMAT: &'static str = "%Y-%m-%d";

/// A day of the proleptic Gregorian calendar.
#[derive(Clone, Copy, Debug, PartialEq, Eq, Structural)]
pub struct Date {
    pub year: i32,
    pub month: u32,
    pub day: u32,
}

/// Whether the year has a 29th of February.
pub open spec fn is_leap_year(year: int) -> bool {
    year % 4 == 0 && (year % 100 != 0 || year % 400 == 0)
}

/// The number of days of a month.
pub open spec fn days_in_month(year: int, month: int) -> int {
    if month == 2 {
        if is_leap_year(year) {
            29
        } else {
            28
        }
    } else if month == 4 || month == 6 || month == 9 || month == 11 {
        30
    } else {
        31
    }
}

/// Whether the three numbers name a day of the calendar, within the supported years.
pub open spec fn is_date(year: int, month: int, day: int) -> bool {
    &&& MIN_YEAR <= year <= MAX_YEAR
    &&& 1 <= month <= 12
    &&& 1 <= day <= days_in_month(year, month)
}

/// A numeral filled up with zeros on the left to at least `width` digits.
pub open spec fn zero_padded(n: nat, width: nat) -> Seq<char> {
    let digits = decimal(n);
    if digits.len() < width {
        Seq::new((width - digits.len()) as nat, |i: int| '0') + digits
    } else {
        digits
    }
}

/// A year as text: four digits, or a sign and at least four digits outside of 0 to 9999.
pub open spec fn year_text(year: int) -> Seq<char> {
    if 0 <= year <= 9999 {
        zero_padded(year as nat, 4)
    } else if year > 9999 {
        seq!['+'] + zero_padded(year as nat, 4)
    } else {
        seq!['-'] + zero_padded((-year) as nat, 4)
    }
}

impl Date {
    /// Whether the fields name a day of the calendar.
    pub open spec fn valid(self) -> bool {
        is_date(self.year as int, self.month as int, self.day as int)
    }

    /// The date as text, `YYYY-MM-DD`.
    pub open spec fn text(self) -> Seq<char> {
        year_text(self.year as int).push('-') + zero_padded(self.month as nat, 2).push('-')
            + zero_padded(self.day as nat, 2)
    }

    /// The date with these fields; `None` where they name no day.
    pub fn from_ymd_opt(year: i32, month: u32, day: u32) -> (date: Option<Date>)
        ensures
            is_date(year as int, month as int, day as int) ==> date == Some(
                (Date { year, month, day }),
            ),
            !is_date(year as int, month as int, day as int) ==> date is None,
    {
        if year < MIN_YEAR || year > MAX_YEAR || month < 1 || month > 12 || day < 1 {
            return None;
        }
        let leap: bool = year % 4 == 0 && (year % 100 != 0 || year % 400 == 0);
        let last: u32 = if month == 2 {
            if leap {
                29
            } else {
                28
            }
        } else if month == 4 || month == 6 || month == 9 || month == 11 {
            30
        } else {
            31
        };
        if day > last {
            return None;
        }
        Some(Date { year, month, day })
    }

    /// Writes the date as text.
    pub fn to_text(&self) -> (s: String)
        requires
            self.valid(),
        ensures
            s@ == self.text(),
            parsed_date(s@) == Some(*self),
    {
        naive_date_text(self.year, self.month, self.day)
    }

    /// Reads a date from text; `None` where the text is not one.
    pub fn from_text(s: &str) -> (date: Option<Date>)
        ensures
            date == parsed_date(s@),
            date matches Some(d) ==> d.valid(),
    {
        match parse_naive_date(s, DATE_FORMAT) {
            Some((year, month, day)) => Some(Date { year, month, day }),
            None => None,
        }
    }
}

/// What `NaiveDate::parse_from_str` makes of a text under a format: year, month and day.
pub uninterp spec fn naive_date_parse(text: Seq<char>, format: Seq<char>) -> Option<
    (i32, u32, u32),
>;

/// The date that a text stands for under the format of rotated file names.
pub open spec fn parsed_date(text: Seq<char>) -> Option<Date> {
    match naive_date_parse(text, DATE_FORMAT@) {
        Some((year, month, day)) => Some(Date { year, month, day }),
        None => None,
    }
}

/// Trusted: `chrono::NaiveDate::parse_from_str`. Its result depends on the two texts alone, and a
/// date that it returns is a day of the calendar within chrono's range of years.
#[verifier::external_body]
fn parse_naive_date(text: &str, format: &str) -> (parts: Option<(i32, u32, u32)>)
    ensures
        parts == naive_date_parse(text@, format@),
        parts matches Some((year, month, day)) ==> is_date(year as int, month as int, day as int),
{
    chrono::NaiveDate::parse_from_str(text, format).ok().map(|d| (d.year(), d.month(), d.day()))
}

/// Trusted: the `Display` form of `chrono::NaiveDate`. A year of 0 to 9999 is written with four
/// digits, any other with its sign and at least four digits; month and day have two digits.
/// `NaiveDate::parse_from_str` under `%Y-%m-%d` reads the same date back from it.
#[verifier::external_body]
fn naive_date_text(year: i32, month: u32, day: u32) -> (s: String)
    requires
        is_date(year as int, month as int, day as int),
    ensures
        s@ == (Date { year, month, day }).text(),
        naive_date_parse(s@, DATE_FORMAT@) == Some((year, month, day)),
{
    chrono::NaiveDate::from_ymd_opt(year, month, day).unwrap().to_string()
}

/// The number of days before the first of January of a year, counted from the year 0.
pub open spec fn days_before(year: int) -> int {
    365 * year + (year + 3) / 4 - (year + 99) / 100 + (year + 399) / 400
}

/// The months have 31 and 30 days in turn, beginning anew in August, but for February; and the months
/// of a year have as many days as the calendar gives the year, with 97 days added in 400 years.
#[verifier::spinoff_prover]
#[verifier::rlimit(40)]
pub proof fn law_months_make_up_the_year(year: int, month: int)
    requires
        1 <= month <= 12,
    ensures
        month != 2 ==> days_in_month(year, month) == 30 + (month + month / 8) % 2,
        days_in_month(year, 1) + days_in_month(year, 2) + days_in_month(year, 3) + days_in_month(
            year,
            4,
        ) + days_in_month(year, 5) + days_in_month(year, 6) + days_in_month(year, 7)
            + days_in_month(year, 8) + days_in_month(year, 9) + days_in_month(year, 10)
            + days_in_month(year, 11) + days_in_month(year, 12) == days_before(year + 1)
            - days_before(year),
        days_before(year + 400) - days_before(year) == 400 * 365 + 97,
{
    assert((year + 4) / 4 - (year + 3) / 4 == if year % 4 == 0 {
        1int
    } else {
        0
    });
    assert((year + 100) / 100 - (year + 99) / 100 == if year % 100 == 0 {
        1int
    } else {
        0
    });
    assert((year + 400) / 400 - (year + 399) / 400 == if year % 400 == 0 {
        1int
    } else {
        0
    });
    assert(year % 400 == 0 ==> year % 100 == 0);
    assert(year % 100 == 0 ==> year % 4 == 0);
}

/// A day is one of the calendar exactly if it is among the days of its month, within the years that
/// are supported.
pub proof fn law_days_of_the_calendar(year: int, month: int, day: int)
    ensures
        is_date(year, month, day) <==> -262143 <= year <= 262142 && 1 <= month <= 12 && 1 <= day
            <= days_in_month(year, month),
{
}

/// The text of a date shows year, month and day in this order, as numerals with hyphens between them:
/// the year with at least four digits and a sign outside of 0 to 9999, month and day with two.
pub proof fn law_date_text_shows_its_fields(date: Date)
    requires
        date.valid(),
    ensures
        exists|y: Seq<char>, m: Seq<char>, d: Seq<char>|
            {
                &&& date.text() == #[trigger] hyphenated(y, m, d)
                &&& m.len() == 2 && all_digits(m) && decimal_value(m) == date.month
                &&& d.len() == 2 && all_digits(d) && decimal_value(d) == date.day
                &&& 0 <= date.year <= 9999 ==> y.len() == 4 && all_digits(y) && decimal_value(y)
                    == date.year
                &&& date.year > 9999 ==> y[0] == '+' && y[1] != '0' && all_digits(y.drop_first())
                    && decimal_value(y.drop_first()) == date.year
                &&& date.year < 0 ==> y[0] == '-' && y.len() >= 5 && all_digits(y.drop_first())
                    && (y.len() > 5 ==> y[1] != '0')
                    && decimal_value(y.drop_first()) == -date.year
            },
{
    let y = year_text(date.year as int);
    let m = zero_padded(date.month as nat, 2);
    let d = zero_padded(date.day as nat, 2);
    lemma_zero_padded(date.month as nat, 2);
    lemma_zero_padded(date.day as nat, 2);
    lemma_short_numeral(date.month as nat);
    lemma_short_numeral(date.day as nat);
    if date.year < 0 {
        lemma_zero_padded((-date.year) as nat, 4);
        assert(y.drop_first() =~= zero_padded((-date.year) as nat, 4));
    } else {
        lemma_zero_padded(date.year as nat, 4);
        lemma_short_numeral(date.year as nat);
        assert(y.drop_first() =~= zero_padded(date.year as nat, 4) || date.year <= 9999);
    }
    if date.year < 0 || date.year > 9999 {
        let n = if date.year < 0 {
            (-date.year) as nat
        } else {
            date.year as nat
        };
        law_numerals_are_canonical(n);
        lemma_short_numeral(n);
        if decimal(n).len() > 4 || n > 9999 {
            assert(decimal(n).len() > 1);
            assert(decimal(n)[0] != '0');
            assert(decimal(n).len() >= 4 ==> y[1] == decimal(n)[0]);
        }
    }
    assert(date.text() =~= hyphenated(y, m, d));
}

/// Three texts with hyphens between them.
pub open spec fn hyphenated(y: Seq<char>, m: Seq<char>, d: Seq<char>) -> Seq<char> {
    y + seq!['-'] + m + seq!['-'] + d
}

proof fn lemma_short_numeral(n: nat)
    ensures
        n < 10 ==> decimal(n).len() == 1,
        10 <= n < 100 ==> decimal(n).len() == 2,
        n < 10000 ==> decimal(n).len() <= 4,
        n > 9999 ==> decimal(n).len() > 4,
{
    reveal_with_fuel(decimal, 5);
}

proof fn lemma_zero_padded(n: nat, width: nat)
    ensures
        all_digits(zero_padded(n, width)),
        zero_padded(n, width).len() >= width,
        decimal(n).len() <= width ==> zero_padded(n, width).len() == width,
        decimal_value(zero_padded(n, width)) == n,
{
    law_numerals_are_canonical(n);
    let digits = decimal(n);
    if digits.len() < width {
        let k = (width - digits.len()) as nat;
        let zeros = Seq::new(k, |i: int| '0');
        lemma_zeros(k);
        assert(all_digits(zeros));
        law_digits_count_by_their_place(zeros, digits, '0');
        assert forall|i: int| 0 <= i < zero_padded(n, width).len() implies is_digit(
            #[trigger] zero_padded(n, width)[i],
        ) by {
            if i >= k {
                assert(is_digit(digits[i - k]));
            }
        }
    }
}

proof fn lemma_zeros(k: nat)
    ensures
        decimal_value(Seq::new(k, |i: int| '0')) == 0,
    decreases k,
{
    let zeros = Seq::new(k, |i: int| '0');
    if k > 0 {
        lemma_zeros((k - 1) as nat);
        assert(zeros.drop_last() =~= Seq::new((k - 1) as nat, |i: int| '0'));
        assert(zeros.last() == '0');
    }
}

/// A text is read as a date exactly if chrono reads it under `%Y-%m-%d`, and as the year, month and
/// day that chrono reads.
pub proof fn law_dates_are_read_under_their_format(text: Seq<char>, date: Date)
    ensures
        parsed_date(text) == Some(date) <==> naive_date_parse(text, "%Y-%m-%d"@) == Some(
            (date.year, date.month, date.day),
        ),
        parsed_date(text) is None <==> naive_date_parse(text, "%Y-%m-%d"@) is None,
{
}

} // verus!
