//! Calendar days and times of day.

use crate::text;
use chrono::{DateTime, Datelike, Duration, NaiveDate, NaiveDateTime, NaiveTime, Timelike};
use vstd::prelude::*;

verus! {

pub open spec fn leap(year: int) -> bool {
    year % 4 == 0 && (year % 100 != 0 || year % 400 == 0)
}

pub open spec fn month_length(year: int, month: int) -> int {
    if month == 2 {
        if leap(year) {
            29
        } else {
            28
        }
    } else if month == 4 || month == 6 || month == 9 || month == 11 {
        30
    } else {
        31
    }
}

/// Whether a day exists in the proleptic Gregorian calendar, in the years that
/// are supported.
pub open spec fn valid_date(year: int, month: int, day: int) -> bool {
    &&& -262143 <= year <= 262142
    &&& 1 <= month <= 12
    &&& 1 <= day <= month_length(year, month)
}

pub open spec fn days_before_year(year: int) -> int {
    365 * (year - 1) + (year - 1) / 4 - (year - 1) / 100 + (year - 1) / 400
}

pub open spec fn days_before_month(year: int, month: int) -> int
    decreases month,
{
    if month <= 1 {
        0
    } else {
        days_before_month(year, month - 1) + month_length(year, month - 1)
    }
}

/// The days from 1970-01-01 to a day.
pub open spec fn day_number(year: int, month: int, day: int) -> int {
    days_before_year(year) - days_before_year(1970) + days_before_month(year, month) + day - 1
}

/// The day with a number.
pub open spec fn date_of(number: int) -> (int, int, int) {
    choose|date: (int, int, int)|
        valid_date(date.0, date.1, date.2) && #[trigger] day_number(
            date.0,
            date.1,
            date.2,
        ) == number
}

/// What `NaiveDate::parse_from_str` reads from a text in a format: year, month
/// and day.
pub uninterp spec fn parsed_date(value: Seq<char>, format: Seq<char>) -> Option<(i32, u32, u32)>;

/// What `NaiveTime::parse_from_str` reads from a text in a format: the seconds
/// since midnight and the nanoseconds.
pub uninterp spec fn parsed_time(value: Seq<char>, format: Seq<char>) -> Option<(u32, u32)>;

/// What `NaiveDateTime::parse_from_str` reads from a text in a format: the
/// seconds since 1970-01-01 00:00:00 of the same clock.
pub uninterp spec fn parsed_clock(value: Seq<char>, format: Seq<char>) -> Option<i64>;

/// `NaiveDate::from_ymd_opt`: there is a date exactly where year, month and day
/// are those of a calendar day in the years that chrono supports.
#[verifier::external_body]
fn date_exists(year: i32, month: u32, day: u32) -> (r: bool)
    ensures
        r == valid_date(year as int, month as int, day as int),
{
    NaiveDate::from_ymd_opt(year, month, day).is_some()
}

/// `NaiveDate::checked_add_signed` on 1970-01-01: the calendar day that lies a
/// number of days later. The bound keeps the day inside chrono's years.
#[verifier::external_body]
fn date_after_epoch(days: i64) -> (r: Option<(i32, u32, u32)>)
    requires
        0 <= days <= 10_000_000,
    ensures
        r is Some,
        valid_date(r->Some_0.0 as int, r->Some_0.1 as int, r->Some_0.2 as int),
        day_number(r->Some_0.0 as int, r->Some_0.1 as int, r->Some_0.2 as int) == days,
{
    DateTime::UNIX_EPOCH.date_naive().checked_add_signed(Duration::days(days)).map(
        |date| (date.year(), date.month(), date.day()),
    )
}

/// `DateTime::from_timestamp` and `DateTime::naive_utc`: the calendar day, the
/// seconds since midnight and the nanoseconds of an instant. The bound keeps
/// the day inside chrono's years.
#[verifier::external_body]
fn utc_clock(seconds: i64, nanoseconds: u32) -> (r: Option<((i32, u32, u32), u32, u32)>)
    requires
        0 <= seconds <= 100_000_000_000,
        nanoseconds < 1_000_000_000,
    ensures
        r is Some,
        ({
            let date = r->Some_0.0;
            valid_date(date.0 as int, date.1 as int, date.2 as int)
        }),
        ({
            let date = r->Some_0.0;
            day_number(date.0 as int, date.1 as int, date.2 as int) == seconds / 86_400
        }),
        r->Some_0.1 == seconds % 86_400,
        r->Some_0.2 == nanoseconds,
{
    DateTime::from_timestamp(seconds, nanoseconds).map(|time| time.naive_utc()).map(
        |time|
            (
                (time.year(), time.month(), time.day()),
                time.num_seconds_from_midnight(),
                time.nanosecond(),
            ),
    )
}

/// `NaiveDate::parse_from_str`: the named reading of the text in the format. A
/// date that is read exists.
#[verifier::external_body]
fn parse_date(value: &str, format: &str) -> (r: Option<(i32, u32, u32)>)
    ensures
        r == parsed_date(value@, format@),
        r matches Some(date) ==> valid_date(date.0 as int, date.1 as int, date.2 as int),
{
    NaiveDate::parse_from_str(value, format).ok().map(
        |date| (date.year(), date.month(), date.day()),
    )
}

/// `NaiveTime::parse_from_str`: the named reading of the text in the format.
#[verifier::external_body]
fn parse_time(value: &str, format: &str) -> (r: Option<(u32, u32)>)
    ensures
        r == parsed_time(value@, format@),
{
    NaiveTime::parse_from_str(value, format).ok().map(
        |time| (time.num_seconds_from_midnight(), time.nanosecond()),
    )
}

/// `NaiveDateTime::parse_from_str`: the named reading of the text in the format.
#[verifier::external_body]
fn parse_clock(value: &str, format: &str) -> (r: Option<i64>)
    ensures
        r == parsed_clock(value@, format@),
{
    NaiveDateTime::parse_from_str(value, format).ok().map(|time| time.and_utc().timestamp())
}

/// Whether a text is a date such as `20260812`.
pub fn is_compact_date(value: &str) -> (r: bool)
    ensures
        r == (parsed_date(value@, "%Y%m%d"@) is Some),
{
    parse_date(value, "%Y%m%d").is_some()
}

/// The seconds since 1970-01-01 00:00:00 of a clock such as `20260812 11:10:00`.
pub fn compact_clock_seconds(value: &str) -> (r: Option<i64>)
    ensures
        r == parsed_clock(value@, "%Y%m%d %H:%M:%S"@),
{
    parse_clock(value, "%Y%m%d %H:%M:%S")
}

/// A time of day: seconds since midnight, and nanoseconds.
#[derive(Clone, Copy, Debug, PartialEq, Eq, Structural)]
pub struct TimeOfDay {
    pub seconds: u32,
    pub nanoseconds: u32,
}

impl TimeOfDay {
    pub open spec fn no_later(self, other: Self) -> bool {
        self.seconds < other.seconds || (self.seconds == other.seconds && self.nanoseconds
            <= other.nanoseconds)
    }

    /// Reads a time such as `14:30:00`.
    pub fn parse(value: &str) -> (r: Option<Self>)
        ensures
            match parsed_time(value@, "%H:%M:%S"@) {
                Some(time) => r == Some(TimeOfDay { seconds: time.0, nanoseconds: time.1 }),
                None => r is None,
            },
    {
        match parse_time(value, "%H:%M:%S") {
            Some((seconds, nanoseconds)) => Some(TimeOfDay { seconds, nanoseconds }),
            None => None,
        }
    }

    pub fn is_no_later(self, other: Self) -> (r: bool)
        ensures
            r == self.no_later(other),
    {
        self.seconds < other.seconds || (self.seconds == other.seconds && self.nanoseconds
            <= other.nanoseconds)
    }
}

/// A calendar day.
#[derive(Clone, Copy, Debug, PartialEq, Eq, PartialOrd, Ord)]
pub struct TradingDay {
    year: i32,
    month: u32,
    day: u32,
}

impl View for TradingDay {
    type V = (int, int, int);

    /// Year, month and day.
    closed spec fn view(&self) -> (int, int, int) {
        (self.year as int, self.month as int, self.day as int)
    }
}

/// Whether a day lies before another.
pub open spec fn earlier(a: (int, int, int), b: (int, int, int)) -> bool {
    a.0 < b.0 || (a.0 == b.0 && (a.1 < b.1 || (a.1 == b.1 && a.2 < b.2)))
}

/// A year filled up to four characters.
pub open spec fn year_text(year: int) -> Seq<char> {
    if year <= -1000 {
        "-"@ + text::numeral((-year) as nat)
    } else if year < 0 {
        "-"@ + text::padded((-year) as nat, 3)
    } else if year < 10000 {
        text::padded(year as nat, 4)
    } else {
        text::numeral(year as nat)
    }
}

/// A day in the form `2026-08-12`.
pub open spec fn day_text(day: (int, int, int)) -> Seq<char> {
    year_text(day.0) + "-"@ + text::padded(day.1 as nat, 2) + "-"@ + text::padded(day.2 as nat, 2)
}

impl TradingDay {
    #[verifier::type_invariant]
    spec fn exists_in_calendar(self) -> bool {
        valid_date(self.year as int, self.month as int, self.day as int)
    }

    /// The days from 1970-01-01.
    pub open spec fn number(self) -> int {
        day_number(self@.0, self@.1, self@.2)
    }

    pub open spec fn valid(self) -> bool {
        valid_date(self@.0, self@.1, self@.2)
    }

    pub fn new(year: i32, month: u32, day: u32) -> (r: Option<Self>)
        ensures
            match r {
                Some(made) => valid_date(year as int, month as int, day as int) && made@ == (
                    year as int,
                    month as int,
                    day as int,
                ),
                None => !valid_date(year as int, month as int, day as int),
            },
    {
        if date_exists(year, month, day) {
            Some(TradingDay { year, month, day })
        } else {
            None
        }
    }

    /// Reads a day such as `2026-08-12`.
    pub fn parse(value: &str) -> (r: Option<Self>)
        ensures
            match parsed_date(value@, "%Y-%m-%d"@) {
                Some(date) => r matches Some(made) && made@ == (
                    date.0 as int,
                    date.1 as int,
                    date.2 as int,
                ),
                None => r is None,
            },
    {
        match parse_date(value, "%Y-%m-%d") {
            Some((year, month, day)) => Some(TradingDay { year, month, day }),
            None => None,
        }
    }

    /// The day that lies a number of days after 1970-01-01.
    pub fn after_epoch(days: u32) -> (r: Self)
        requires
            days <= 10_000_000,
        ensures
            r.valid(),
            r.number() == days,
    {
        let date: (i32, u32, u32) = date_after_epoch(days as i64).unwrap();
        TradingDay { year: date.0, month: date.1, day: date.2 }
    }

    pub fn year(&self) -> (r: i32)
        ensures
            r == self@.0,
            self.valid(),
    {
        proof {
            use_type_invariant(self);
        }
        self.year
    }

    pub fn month(&self) -> (r: u32)
        ensures
            r == self@.1,
    {
        self.month
    }

    pub fn day(&self) -> (r: u32)
        ensures
            r == self@.2,
    {
        self.day
    }

    pub fn is_same(&self, other: &Self) -> (r: bool)
        ensures
            r == (self@ == other@),
            r == (*self == *other),
            r == (self.number() == other.number()),
    {
        proof {
            use_type_invariant(self);
            use_type_invariant(other);
            lemma_number_order(self@, other@);
            lemma_number_order(other@, self@);
        }
        self.year == other.year && self.month == other.month && self.day == other.day
    }

    pub fn is_earlier(&self, other: &Self) -> (r: bool)
        ensures
            r == earlier(self@, other@),
            r == (self.number() < other.number()),
    {
        proof {
            use_type_invariant(self);
            use_type_invariant(other);
            lemma_number_order(self@, other@);
            lemma_number_order(other@, self@);
        }
        self.year < other.year || (self.year == other.year && (self.month < other.month || (
        self.month == other.month && self.day < other.day)))
    }

    /// The day in the form `2026-08-12`.
    pub fn to_text(&self) -> (r: String)
        ensures
            r@ == day_text(self@),
    {
        let mut out: String = String::new();
        if self.year < 0 {
            let past: u128 = (-(self.year as i64)) as u128;
            out.append("-");
            if past >= 1000 {
                text::push_numeral(&mut out, past);
            } else {
                text::push_padded(&mut out, past, 3);
            }
        } else if self.year < 10000 {
            text::push_padded(&mut out, self.year as u128, 4);
        } else {
            text::push_numeral(&mut out, self.year as u128);
        }
        assert(out@ =~= year_text(self@.0));
        out.append("-");
        text::push_padded(&mut out, self.month as u128, 2);
        out.append("-");
        text::push_padded(&mut out, self.day as u128, 2);
        assert(out@ =~= day_text(self@));
        out
    }

    /// The day in the form `20260812`, for a year of up to four digits.
    pub fn to_compact_text(&self) -> (r: String)
        requires
            0 <= self@.0 <= 9999,
        ensures
            r@ == compact_day(self@),
    {
        let mut out: String = String::new();
        text::push_padded(&mut out, self.year as u128, 4);
        text::push_padded(&mut out, self.month as u128, 2);
        text::push_padded(&mut out, self.day as u128, 2);
        assert(out@ =~= compact_day(self@));
        out
    }
}

/// A day in the form `20260812`.
pub open spec fn compact_day(day: (int, int, int)) -> Seq<char> {
    text::padded(day.0 as nat, 4) + text::padded(day.1 as nat, 2) + text::padded(day.2 as nat, 2)
}

/// The clock of a timestamp, read as nanoseconds since 1970-01-01 00:00:00: its
/// day and its time of day.
pub fn clock(timestamp_ns: u64) -> (r: (TradingDay, TimeOfDay))
    ensures
        r.0.number() == timestamp_ns / 86_400_000_000_000,
        r.0.valid(),
        1970 <= r.0@.0 <= 9999,
        r.1 == time_of_day(timestamp_ns),
{
    let seconds: u64 = timestamp_ns / 1_000_000_000;
    let nanoseconds: u32 = (timestamp_ns % 1_000_000_000) as u32;
    let (date, second, nanosecond): ((i32, u32, u32), u32, u32) = utc_clock(
        seconds as i64,
        nanoseconds,
    ).unwrap();
    proof {
        lemma_common_years(date.0 as int, date.1 as int, date.2 as int);
    }
    (
        TradingDay { year: date.0, month: date.1, day: date.2 },
        TimeOfDay { seconds: second, nanoseconds: nanosecond },
    )
}

/// The time of day of a timestamp, read as nanoseconds since midnight of some
/// day.
pub open spec fn time_of_day(timestamp_ns: u64) -> TimeOfDay {
    TimeOfDay {
        seconds: ((timestamp_ns / 1_000_000_000) % 86_400) as u32,
        nanoseconds: (timestamp_ns % 1_000_000_000) as u32,
    }
}

/// A time of day in the form `14:30:05`.
pub open spec fn time_text(time: TimeOfDay) -> Seq<char> {
    text::padded((time.seconds / 3_600) as nat, 2) + ":"@ + text::padded(
        (time.seconds / 60 % 60) as nat,
        2,
    ) + ":"@ + text::padded((time.seconds % 60) as nat, 2)
}

/// The day of a timestamp, read as nanoseconds since 1970-01-01 00:00:00.
pub open spec fn stamp_day(timestamp_ns: u64) -> (int, int, int) {
    date_of((timestamp_ns / 86_400_000_000_000) as int)
}

/// Appends the day and the time of day of a timestamp, with a text between
/// them.
pub fn push_clock(out: &mut String, timestamp_ns: u64, between: &str)
    ensures
        final(out)@ == old(out)@ + (day_text(stamp_day(timestamp_ns)) + between@ + time_text(
            time_of_day(timestamp_ns),
        )),
{
    let (day, time): (TradingDay, TimeOfDay) = clock(timestamp_ns);
    proof {
        lemma_number_order(day@, date_of(day.number()));
    }
    out.append(day.to_text().as_str());
    out.append(between);
    text::push_padded(out, (time.seconds / 3_600) as u128, 2);
    out.append(":");
    text::push_padded(out, (time.seconds / 60 % 60) as u128, 2);
    out.append(":");
    text::push_padded(out, (time.seconds % 60) as u128, 2);
    assert(out@ =~= old(out)@ + (day_text(stamp_day(timestamp_ns)) + between@ + time_text(
        time_of_day(timestamp_ns),
    )));
}

/// Days of this and the next centuries have years of four digits.
proof fn lemma_common_years(year: int, month: int, day: int)
    requires
        valid_date(year, month, day),
        0 <= day_number(year, month, day) <= 1_000_000,
    ensures
        1970 <= year <= 9999,
{
    reveal_with_fuel(days_before_month, 13);
    lemma_number_order((year, month, day), (1970, 1, 1));
    lemma_number_order((9999, 12, 31), (year, month, day));
    assert(day_number(9999, 12, 31) > 1_000_000);
    assert(day_number(1970, 1, 1) == 0);
}

proof fn lemma_months(year: int, a: int, b: int)
    requires
        1 <= a < b <= 13,
    ensures
        days_before_month(year, a) + month_length(year, a) <= days_before_month(year, b),
        days_before_month(year, a) >= 0,
    decreases b - a,
{
    lemma_months_natural(year, a);
    if a + 1 < b {
        lemma_months(year, a, b - 1);
    }
}

proof fn lemma_months_natural(year: int, a: int)
    ensures
        days_before_month(year, a) >= 0,
    decreases a,
{
    if a > 1 {
        lemma_months_natural(year, a - 1);
    }
}

proof fn lemma_year_length(year: int)
    ensures
        days_before_month(year, 13) == if leap(year) {
            366int
        } else {
            365
        },
        days_before_year(year + 1) == days_before_year(year) + days_before_month(year, 13),
{
    let february = month_length(year, 2);
    assert(days_before_month(year, 1) == 0);
    assert(days_before_month(year, 2) == 31);
    assert(days_before_month(year, 3) == 31 + february);
    assert(days_before_month(year, 4) == 62 + february);
    assert(days_before_month(year, 5) == 92 + february);
    assert(days_before_month(year, 6) == 123 + february);
    assert(days_before_month(year, 7) == 153 + february);
    assert(days_before_month(year, 8) == 184 + february);
    assert(days_before_month(year, 9) == 215 + february);
    assert(days_before_month(year, 10) == 245 + february);
    assert(days_before_month(year, 11) == 276 + february);
    assert(days_before_month(year, 12) == 306 + february);
    assert(days_before_month(year, 13) == 337 + february);
    assert(year / 4 - (year - 1) / 4 == if year % 4 == 0 {
        1int
    } else {
        0
    });
    assert(year / 100 - (year - 1) / 100 == if year % 100 == 0 {
        1int
    } else {
        0
    });
    assert(year / 400 - (year - 1) / 400 == if year % 400 == 0 {
        1int
    } else {
        0
    });
}

proof fn lemma_years(a: int, b: int)
    requires
        a < b,
    ensures
        days_before_year(a) + days_before_month(a, 13) <= days_before_year(b),
    decreases b - a,
{
    lemma_year_length(a);
    if a + 1 < b {
        lemma_years(a, b - 1);
        lemma_year_length(b - 1);
    }
}

/// Days are numbered in their order.
pub proof fn lemma_number_order(a: (int, int, int), b: (int, int, int))
    requires
        valid_date(a.0, a.1, a.2),
        valid_date(b.0, b.1, b.2),
    ensures
        earlier(a, b) ==> day_number(a.0, a.1, a.2) < day_number(b.0, b.1, b.2),
        day_number(a.0, a.1, a.2) == day_number(b.0, b.1, b.2) ==> a == b,
{
    lemma_earlier_number(a, b);
    lemma_earlier_number(b, a);
}

proof fn lemma_earlier_number(a: (int, int, int), b: (int, int, int))
    requires
        valid_date(a.0, a.1, a.2),
        valid_date(b.0, b.1, b.2),
    ensures
        earlier(a, b) ==> day_number(a.0, a.1, a.2) < day_number(b.0, b.1, b.2),
{
    lemma_months(a.0, a.1, 13);
    lemma_months_natural(b.0, b.1);
    if a.0 < b.0 {
        lemma_years(a.0, b.0);
    } else if a.0 == b.0 && a.1 < b.1 {
        lemma_months(a.0, a.1, b.1);
    }
}

} // verus!
