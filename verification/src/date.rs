//! Calendar dates.

use crate::text;
use vstd::prelude::*;

verus! {

/// The first and the last year that can be held.
pub const FIRST_YEAR: i32 = -262143;

pub const LAST_YEAR: i32 = 262142;

/// A day of the proleptic Gregorian calendar.
#[derive(Clone, Copy, Debug, PartialEq, Eq, Structural)]
pub struct Date {
    pub year: i32,
    pub month: u32,
    pub day: u32,
}

pub open spec fn is_leap_year(year: int) -> bool {
    year % 4 == 0 && (year % 100 != 0 || year % 400 == 0)
}

pub open spec fn days_in_month(year: int, month: int) -> int {
    if month == 2 {
        if is_leap_year(year) {
            29
        } else {
            28
        }
    } else if month == 4 || month == 6 || month == 9 || month == 11 {
        30
    } else {
        31
    }
}

/// There is such a day, and it can be held.
pub open spec fn is_day(year: int, month: int, day: int) -> bool {
    &&& FIRST_YEAR <= year <= LAST_YEAR
    &&& 1 <= month <= 12
    &&& 1 <= day <= days_in_month(year, month)
}

/// A number with zeros in front of it where it would be shorter.
pub open spec fn padded(n: nat, width: nat) -> Seq<char> {
    let digits = text::decimal(n);
    if digits.len() < width {
        Seq::new((width - digits.len()) as nat, |i: int| '0') + digits
    } else {
        digits
    }
}

/// A year with four digits, or with a sign where that is not enough.
pub open spec fn year_text(year: int) -> Seq<char> {
    if year < 0 {
        seq!['-'] + padded((-year) as nat, 4)
    } else if year > 9999 {
        seq!['+'] + padded(year as nat, 4)
    } else {
        padded(year as nat, 4)
    }
}

/// A date as year, month and day with hyphens between.
pub open spec fn day_text(year: int, month: int, day: int) -> Seq<char> {
    year_text(year) + seq!['-'] + padded(month as nat, 2) + seq!['-'] + padded(day as nat, 2)
}

/// The error of `chrono`'s date parser, of which only its presence is used.
#[verifier::external_type_specification]
#[verifier::external_body]
pub struct ExDateError(chrono::ParseError);

/// What `chrono::NaiveDate::parse_from_str` reads from a text with a format:
/// year, month and day of the date, or nothing where it reports an error.
pub uninterp spec fn date_read(text: Seq<char>, format: Seq<char>) -> Option<(i32, u32, u32)>;

/// Where the text is that of a date it was read as that date.
pub open spec fn is_read_back(
    text: Seq<char>,
    r: Result<(i32, u32, u32), chrono::ParseError>,
) -> bool {
    forall|d: Date|
        d.is_valid() && text == #[trigger] d.text() ==> (r matches Ok(found) && found == (
            d.year,
            d.month,
            d.day,
        ))
}

/// Calls `chrono::NaiveDate::parse_from_str` with the one format that is used
/// here: year, month and day with hyphens between. Which texts it accepts and
/// which date it finds in them is named `date_read`: besides the one below
/// there are others that it takes, such as one with blanks or without leading
/// zeros, and of those nothing more is said. It is claimed that a date that is
/// found is one of the calendar, and that a text that writes a date that way is
/// read as that date.
#[verifier::external_body]
fn read_date(text: &str, format: &str) -> (r: Result<(i32, u32, u32), chrono::ParseError>)
    requires
        format@ == "%Y-%m-%d"@,
    ensures
        r matches Ok(found) ==> date_read(text@, format@) == Some(found) && is_day(
            found.0 as int,
            found.1 as int,
            found.2 as int,
        ),
        r is Err ==> date_read(text@, format@) is None,
        is_read_back(text@, r),
{
    match chrono::NaiveDate::parse_from_str(text, format) {
        Ok(d) => Ok(
            (chrono::Datelike::year(&d), chrono::Datelike::month(&d), chrono::Datelike::day(&d)),
        ),
        Err(e) => Err(e),
    }
}

/// Calls `to_string` on the `chrono::NaiveDate` of a day, which writes year,
/// month and day with hyphens between: the year with four digits at least, and
/// with a sign where it is negative or has more.
#[verifier::external_body]
fn write_date(year: i32, month: u32, day: u32) -> (r: String)
    requires
        is_day(year as int, month as int, day as int),
    ensures
        r@ == day_text(year as int, month as int, day as int),
{
    chrono::NaiveDate::from_ymd_opt(year, month, day).unwrap().to_string()
}

/// The date that a text writes as year, month and day with hyphens between.
pub open spec fn parsed_date(text: Seq<char>) -> Option<Date> {
    match date_read(text, "%Y-%m-%d"@) {
        Some(found) => Some(Date { year: found.0, month: found.1, day: found.2 }),
        None => None,
    }
}

impl Date {
    pub open spec fn is_valid(self) -> bool {
        is_day(self.year as int, self.month as int, self.day as int)
    }

    /// The date as a text.
    pub open spec fn text(self) -> Seq<char> {
        day_text(self.year as int, self.month as int, self.day as int)
    }

    /// Whether there is such a day.
    pub fn is_real(&self) -> (r: bool)
        ensures
            r == self.is_valid(),
    {
        if self.year < FIRST_YEAR || self.year > LAST_YEAR || self.month < 1 || self.month > 12 {
            return false;
        }
        // Years before the first are as far from a leap year as these.
        let year: u32 = (self.year + 262400) as u32;
        assert(262400int % 400 == 0);
        assert(year as int % 400 == self.year as int % 400);
        assert(year as int % 100 == self.year as int % 100);
        assert(year as int % 4 == self.year as int % 4);
        let leap = year % 4 == 0 && (year % 100 != 0 || year % 400 == 0);
        let days: u32 = if self.month == 2 {
            if leap {
                29
            } else {
                28
            }
        } else if self.month == 4 || self.month == 6 || self.month == 9 || self.month == 11 {
            30
        } else {
            31
        };
        1 <= self.day && self.day <= days
    }

    /// Reads a date. A date is read back from its text.
    pub fn parse(text: &str) -> (r: Option<Date>)
        ensures
            r == parsed_date(text@),
            r matches Some(d) ==> d.is_valid(),
            forall|d: Date| d.is_valid() && text@ == #[trigger] d.text() ==> r == Some(d),
    {
        match read_date(text, "%Y-%m-%d") {
            Ok((year, month, day)) => Some(Date { year, month, day }),
            Err(_) => None,
        }
    }

    /// Writes a date.
    pub fn to_text(&self) -> (r: String)
        requires
            self.is_valid(),
        ensures
            r@ == self.text(),
    {
        write_date(self.year, self.month, self.day)
    }
}

// ---------------------------------------------------------------------------
// Laws
// ---------------------------------------------------------------------------

/// The days of a year: its months have 31 days, four of them 30, and the
/// second 28, or 29 in one year out of four, but not in the last of a century
/// unless the century is the fourth.
pub proof fn law_days_of_the_year(year: int, century: int, k: int)
    requires
        year == 100 * century + k,
        0 <= k < 100,
    ensures
        days_in_month(year, 1) == 31,
        days_in_month(year, 2) == (if k % 4 == 0 && (k > 0 || century % 4 == 0) {
            29int
        } else {
            28int
        }),
        days_in_month(year, 3) == 31,
        days_in_month(year, 4) == 30,
        days_in_month(year, 5) == 31,
        days_in_month(year, 6) == 30,
        days_in_month(year, 7) == 31,
        days_in_month(year, 8) == 31,
        days_in_month(year, 9) == 30,
        days_in_month(year, 10) == 31,
        days_in_month(year, 11) == 30,
        days_in_month(year, 12) == 31,
{
    assert(year % 4 == k % 4);
    assert(year % 100 == k);
    if k == 0 {
        assert(year % 400 == 100 * (century % 4));
    }
}

/// Days are counted from one to the length of the month, months from one to
/// twelve.
pub proof fn law_which_days_there_are(date: Date)
    ensures
        date.is_valid() <==> {
            &&& -262143 <= date.year <= 262142
            &&& 1 <= date.month <= 12
            &&& 1 <= date.day <= days_in_month(date.year as int, date.month as int)
        },
{
}

proof fn lemma_two_digits(n: nat)
    requires
        n < 100,
    ensures
        padded(n, 2) == seq!["0123456789"@[(n / 10) as int], "0123456789"@[(n % 10) as int]],
{
    reveal_strlit("0123456789");
    text::law_decimal_writing(n / 10, n % 10);
    assert(10 * (n / 10) + n % 10 == n);
    let d = text::decimal(n);
    if n < 10 {
        text::law_decimal_writing(0, n);
        assert(d.len() == 1);
        assert(padded(n, 2) =~= seq!['0', d[0]]);
    } else {
        text::law_decimal_writing(0, n / 10);
        assert(d =~= seq!["0123456789"@[(n / 10) as int], "0123456789"@[(n % 10) as int]]);
    }
}

proof fn lemma_four_digits(n: nat)
    requires
        n < 10000,
    ensures
        padded(n, 4) == seq![
            "0123456789"@[(n / 1000) as int],
            "0123456789"@[(n / 100 % 10) as int],
            "0123456789"@[(n / 10 % 10) as int],
            "0123456789"@[(n % 10) as int],
        ],
{
    reveal_strlit("0123456789");
    let (a, b, c) = (n / 1000, n / 100, n / 10);
    assert(10 * c + n % 10 == n);
    assert(10 * b + c % 10 == c);
    assert(10 * a + b % 10 == b);
    text::law_decimal_writing(0, a);
    text::law_decimal_writing(a, b % 10);
    text::law_decimal_writing(b, c % 10);
    text::law_decimal_writing(c, n % 10);
    let d = text::decimal(n);
    let x = "0123456789"@[a as int];
    let y = "0123456789"@[(b % 10) as int];
    let z = "0123456789"@[(c % 10) as int];
    let w = "0123456789"@[(n % 10) as int];
    if a > 0 {
        assert(d =~= seq![x, y, z, w]);
        assert(d.len() == 4);
    } else if b > 0 {
        text::law_decimal_writing(0, b);
        assert(d =~= seq![y, z, w]);
        assert(padded(n, 4) =~= seq![x, y, z, w]);
    } else if c > 0 {
        text::law_decimal_writing(0, c);
        assert(d =~= seq![z, w]);
        assert(padded(n, 4) =~= seq![x, y, z, w]);
    } else {
        text::law_decimal_writing(0, n);
        assert(d =~= seq![w]);
        assert(padded(n, 4) =~= seq![x, y, z, w]);
    }
}

/// A date is written with four digits for the year, two for the month and two
/// for the day, and hyphens between.
pub proof fn law_dates_have_ten_characters(date: Date)
    requires
        date.is_valid(),
        0 <= date.year <= 9999,
    ensures
        ({
            let digit = |n: int| "0123456789"@[n];
            let (y, m, d) = (date.year as int, date.month as int, date.day as int);
            date.text() == seq![
                digit(y / 1000),
                digit(y / 100 % 10),
                digit(y / 10 % 10),
                digit(y % 10),
                '-',
                digit(m / 10),
                digit(m % 10),
                '-',
                digit(d / 10),
                digit(d % 10),
            ]
        }),
{
    let digit = |n: int| "0123456789"@[n];
    let (y, m, d) = (date.year as int, date.month as int, date.day as int);
    lemma_four_digits(y as nat);
    lemma_two_digits(m as nat);
    lemma_two_digits(d as nat);
    assert(date.text() =~= seq![
        digit(y / 1000),
        digit(y / 100 % 10),
        digit(y / 10 % 10),
        digit(y % 10),
        '-',
        digit(m / 10),
        digit(m % 10),
        '-',
        digit(d / 10),
        digit(d % 10),
    ]);
}

} // verus!
