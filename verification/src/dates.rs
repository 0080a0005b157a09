//! Calendar dates and times of day of points, held as plain numbers. chrono checks, parses and
//! prints them.
use chrono::{Datelike, Timelike};
use vstd::prelude::*;

verus! {

/// A leap year of the proleptic Gregorian calendar.
pub open spec fn is_leap(y: int) -> bool {
    (y % 4 == 0 && y % 100 != 0) || y % 400 == 0
}

/// The number of days of month `m` in year `y`.
pub open spec fn days_in_month(y: int, m: int) -> int {
    if m == 2 {
        if is_leap(y) {
            29
        } else {
            28
        }
    } else if m == 4 || m == 6 || m == 9 || m == 11 {
        30
    } else {
        31
    }
}

/// The smallest year that chrono's `NaiveDate` holds.
pub open spec fn min_year() -> int {
    -262143
}

/// The largest year that chrono's `NaiveDate` holds.
pub open spec fn max_year() -> int {
    262142
}

/// The calendar date exists and is in chrono's range.
pub open spec fn date_exists(y: int, m: int, d: int) -> bool {
    &&& min_year() <= y <= max_year()
    &&& 1 <= m <= 12
    &&& 1 <= d <= days_in_month(y, m)
}

/// The time of day exists (no leap second).
pub open spec fn time_exists(h: int, m: int, s: int) -> bool {
    0 <= h < 24 && 0 <= m < 60 && 0 <= s < 60
}

/// The decimal digit for `n` (0 to 9).
pub open spec fn digit(n: int) -> char {
    (48 + n) as char
}

/// `n` (0 to 99) in two digits.
pub open spec fn two_digits(n: int) -> Seq<char> {
    seq![digit(n / 10), digit(n % 10)]
}

/// `n` in decimal digits, without leading zeros.
pub open spec fn decimal(n: nat) -> Seq<char>
    decreases n,
{
    if n < 10 {
        seq![digit(n as int)]
    } else {
        decimal(n / 10).push(digit((n % 10) as int))
    }
}

/// Digits padded on the left with zeros to at least four.
pub open spec fn pad4(s: Seq<char>) -> Seq<char> {
    if s.len() >= 4 {
        s
    } else {
        Seq::new((4 - s.len()) as nat, |i: int| '0') + s
    }
}

/// A year as chrono prints it: four digits from 0 to 9999, else a sign and at least four digits.
pub open spec fn year_text(y: int) -> Seq<char> {
    if 0 <= y <= 9999 {
        pad4(decimal(y as nat))
    } else if y < 0 {
        seq!['-'] + pad4(decimal((-y) as nat))
    } else {
        seq!['+'] + pad4(decimal(y as nat))
    }
}

/// A date as chrono prints it: `%Y-%m-%d`.
pub open spec fn date_text(y: int, m: int, d: int) -> Seq<char> {
    year_text(y) + seq!['-'] + two_digits(m) + seq!['-'] + two_digits(d)
}

/// A whole-second time of day as chrono prints it: `%H:%M:%S`.
pub open spec fn time_text(h: int, m: int, s: int) -> Seq<char> {
    two_digits(h) + seq![':'] + two_digits(m) + seq![':'] + two_digits(s)
}

/// What chrono's `NaiveDate::parse_from_str` with the format `%Y-%m-%d` makes of a text, as
/// year, month and day.
pub uninterp spec fn parsed_date(s: Seq<char>) -> Option<(i32, u32, u32)>;

/// What chrono's `NaiveTime::parse_from_str` with the format `%H:%M:%S` makes of a text, as
/// hour, minute, second and whether it is a leap second (which chrono holds as second 59).
pub uninterp spec fn parsed_time(s: Seq<char>) -> Option<(u32, u32, u32, bool)>;

/// A time of day as held: it exists, and a leap second comes only after second 59.
pub open spec fn time_valid(v: (u32, u32, u32, bool)) -> bool {
    time_exists(v.0 as int, v.1 as int, v.2 as int) && (v.3 ==> v.2 == 59)
}

/// A time of day as chrono prints it: a leap second shows as second 60.
pub open spec fn point_time_text(v: (u32, u32, u32, bool)) -> Seq<char> {
    time_text(v.0 as int, v.1 as int, if v.3 { 60 } else { v.2 as int })
}

/// A calendar date that exists.
#[derive(Clone, Copy, Debug, PartialEq, Eq)]
pub struct PointDate {
    year: i32,
    month: u32,
    day: u32,
}

/// A time of day in whole seconds, possibly a leap second.
#[derive(Clone, Copy, Debug, PartialEq, Eq)]
pub struct PointTime {
    hour: u32,
    minute: u32,
    second: u32,
    leap_second: bool,
}

impl View for PointDate {
    type V = (i32, u32, u32);

    closed spec fn view(&self) -> (i32, u32, u32) {
        (self.year, self.month, self.day)
    }
}

impl View for PointTime {
    type V = (u32, u32, u32, bool);

    closed spec fn view(&self) -> (u32, u32, u32, bool) {
        (self.hour, self.minute, self.second, self.leap_second)
    }
}

/// chrono's `NaiveDate::from_ymd_opt`: trusted to accept exactly the dates that exist in its
/// range (its documentation lists the reasons for `None`; its source gives the range of years
/// and the Gregorian leap years).
#[verifier::external_body]
fn chrono_ymd(year: i32, month: u32, day: u32) -> (r: Option<PointDate>)
    ensures
        r is Some <==> date_exists(year as int, month as int, day as int),
        r matches Some(d) ==> d@ == (year, month, day),
{
    match chrono::NaiveDate::from_ymd_opt(year, month, day) {
        Some(_) => Some(PointDate { year, month, day }),
        None => None,
    }
}

/// chrono's `NaiveTime::from_hms_opt`: trusted to accept exactly the hours below 24 and the
/// minutes and seconds below 60, as its documentation says.
#[verifier::external_body]
fn chrono_hms(hour: u32, minute: u32, second: u32) -> (r: Option<PointTime>)
    ensures
        r is Some <==> time_exists(hour as int, minute as int, second as int),
        r matches Some(t) ==> t@ == (hour, minute, second, false),
{
    match chrono::NaiveTime::from_hms_opt(hour, minute, second) {
        Some(_) => Some(PointTime { hour, minute, second, leap_second: false }),
        None => None,
    }
}

/// chrono's `NaiveDate::parse_from_str` with `%Y-%m-%d`: the result, taken as year, month and
/// day, is named by `parsed_date`, and it is a date that exists (the type's invariant). How
/// chrono reads a text is not stated.
#[verifier::external_body]
fn chrono_parse_date(s: &str) -> (r: Option<PointDate>)
    ensures
        r is Some <==> parsed_date(s@) is Some,
        r matches Some(d) ==> Some(d@) == parsed_date(s@),
{
    match chrono::NaiveDate::parse_from_str(s, "%Y-%m-%d") {
        Ok(d) => Some(PointDate { year: d.year(), month: d.month(), day: d.day() }),
        Err(_) => None,
    }
}

/// chrono's `NaiveTime::parse_from_str` with `%H:%M:%S`: the result, taken as hour, minute,
/// second and leap second, is named by `parsed_time`. It is a valid time: chrono reads second
/// `60` as second 59 with a nanosecond count of one second, and accepts that only after second
/// 59; without `%f` no other fraction is read. How chrono reads a text is not stated.
#[verifier::external_body]
fn chrono_parse_time(s: &str) -> (r: Option<PointTime>)
    ensures
        r is Some <==> parsed_time(s@) is Some,
        r matches Some(t) ==> Some(t@) == parsed_time(s@),
{
    match chrono::NaiveTime::parse_from_str(s, "%H:%M:%S") {
        Ok(t) => Some(
            PointTime {
                hour: t.hour(),
                minute: t.minute(),
                second: t.second(),
                leap_second: t.nanosecond() >= 1_000_000_000,
            },
        ),
        Err(_) => None,
    }
}

/// chrono's `Display` of a `NaiveDate`: trusted to print `%Y-%m-%d` (four digits for years 0 to
/// 9999, else a sign and at least four digits), as its source does, and `parse_from_str` with
/// `%Y-%m-%d` to read that text back as the same date (its `%Y` takes a sign and any number of
/// digits).
#[verifier::external_body]
fn chrono_date_to_string(d: &PointDate) -> (r: String)
    ensures
        r@ == date_text(d@.0 as int, d@.1 as int, d@.2 as int),
        parsed_date(r@) == Some(d@),
{
    match chrono::NaiveDate::from_ymd_opt(d.year, d.month, d.day) {
        Some(nd) => nd.to_string(),
        None => String::new(),
    }
}

/// chrono's `Display` of a `NaiveTime` whose fraction is none or exactly one leap second:
/// trusted to print `%H:%M:%S` with a leap second as second `60`, as its source does, and
/// `parse_from_str` with `%H:%M:%S` to read that text back as the same time.
#[verifier::external_body]
fn chrono_time_to_string(t: &PointTime) -> (r: String)
    ensures
        r@ == point_time_text(t@),
        parsed_time(r@) == Some(t@),
{
    let nano: u32 = if t.leap_second { 1_000_000_000 } else { 0 };
    match chrono::NaiveTime::from_hms_nano_opt(t.hour, t.minute, t.second, nano) {
        Some(nt) => nt.to_string(),
        None => String::new(),
    }
}

impl PointDate {
    #[verifier::type_invariant]
    closed spec fn inv(self) -> bool {
        date_exists(self.year as int, self.month as int, self.day as int)
    }

    /// The date with this year, month and day, if it exists.
    pub fn new(year: i32, month: u32, day: u32) -> (r: Option<PointDate>)
        ensures
            r is Some <==> date_exists(year as int, month as int, day as int),
            r matches Some(d) ==> d@ == (year, month, day),
    {
        chrono_ymd(year, month, day)
    }

    pub fn year(&self) -> (r: i32)
        ensures
            r == self@.0,
    {
        self.year
    }

    pub fn month(&self) -> (r: u32)
        ensures
            r == self@.1,
    {
        self.month
    }

    pub fn day(&self) -> (r: u32)
        ensures
            r == self@.2,
    {
        self.day
    }

    /// The date read from a `%Y-%m-%d` text, as chrono reads it.
    pub fn parse(s: &str) -> (r: Option<PointDate>)
        ensures
            r is Some <==> parsed_date(s@) is Some,
            r matches Some(d) ==> Some(d@) == parsed_date(s@),
    {
        chrono_parse_date(s)
    }

    /// The date as chrono prints it, which chrono reads back as the same date.
    pub fn to_text(&self) -> (r: String)
        ensures
            r@ == date_text(self@.0 as int, self@.1 as int, self@.2 as int),
            parsed_date(r@) == Some(self@),
            date_exists(self@.0 as int, self@.1 as int, self@.2 as int),
    {
        proof {
            use_type_invariant(self);
        }
        chrono_date_to_string(self)
    }

    /// A copy of the date.
    pub fn copy(&self) -> (r: PointDate)
        ensures
            r@ == self@,
    {
        proof {
            use_type_invariant(self);
        }
        PointDate { year: self.year, month: self.month, day: self.day }
    }
}

impl PointTime {
    #[verifier::type_invariant]
    closed spec fn inv(self) -> bool {
        time_valid((self.hour, self.minute, self.second, self.leap_second))
    }

    /// The time with this hour, minute and second, if it exists.
    pub fn new(hour: u32, minute: u32, second: u32) -> (r: Option<PointTime>)
        ensures
            r is Some <==> time_exists(hour as int, minute as int, second as int),
            r matches Some(t) ==> t@ == (hour, minute, second, false),
    {
        chrono_hms(hour, minute, second)
    }

    pub fn hour(&self) -> (r: u32)
        ensures
            r == self@.0,
    {
        self.hour
    }

    pub fn minute(&self) -> (r: u32)
        ensures
            r == self@.1,
    {
        self.minute
    }

    /// The second, 59 for a leap second (as chrono's `second` gives it).
    pub fn second(&self) -> (r: u32)
        ensures
            r == self@.2,
    {
        self.second
    }

    /// Whether this is a leap second.
    pub fn is_leap_second(&self) -> (r: bool)
        ensures
            r == self@.3,
    {
        self.leap_second
    }

    /// The time read from a `%H:%M:%S` text, as chrono reads it.
    pub fn parse(s: &str) -> (r: Option<PointTime>)
        ensures
            r is Some <==> parsed_time(s@) is Some,
            r matches Some(t) ==> Some(t@) == parsed_time(s@),
    {
        chrono_parse_time(s)
    }

    /// The time as chrono prints it, which chrono reads back as the same time.
    pub fn to_text(&self) -> (r: String)
        ensures
            r@ == point_time_text(self@),
            parsed_time(r@) == Some(self@),
            time_valid(self@),
    {
        proof {
            use_type_invariant(self);
        }
        chrono_time_to_string(self)
    }

    /// A copy of the time.
    pub fn copy(&self) -> (r: PointTime)
        ensures
            r@ == self@,
    {
        proof {
            use_type_invariant(self);
        }
        PointTime {
            hour: self.hour,
            minute: self.minute,
            second: self.second,
            leap_second: self.leap_second,
        }
    }
}

} // verus!
