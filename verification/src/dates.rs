//! Days of the calendar, and instants on the clock.

use vstd::prelude::*;

use crate::text;

verus! {

pub const MIN_YEAR: i32 = -262143;

pub const MAX_YEAR: i32 = 262142;

/// A day of the proleptic Gregorian calendar.
#[derive(Clone, Copy, PartialEq, Eq, Structural, Debug)]
pub struct Date {
    pub year: i32,
    pub month: u32,
    pub day: u32,
}

pub open spec fn is_leap(year: int) -> bool {
    year % 4 == 0 && (year % 100 != 0 || year % 400 == 0)
}

/// The number of days of a month.
pub open spec fn month_length(year: int, month: int) -> int {
    if month == 2 {
        if is_leap(year) {
            29
        } else {
            28
        }
    } else if month == 4 || month == 6 || month == 9 || month == 11 {
        30
    } else {
        31
    }
}

pub open spec fn is_ymd(year: int, month: int, day: int) -> bool {
    &&& MIN_YEAR <= year <= MAX_YEAR
    &&& 1 <= month <= 12
    &&& 1 <= day <= month_length(year, month)
}

/// The number of days from the first one of year 1 to the first one of `year`.
pub open spec fn days_before_year(year: int) -> int {
    365 * (year - 1) + (year - 1) / 4 - (year - 1) / 100 + (year - 1) / 400
}

/// The number of days of a year in front of the first one of `month`.
pub open spec fn days_before_month(year: int, month: int) -> int
    decreases month,
{
    if month <= 1 {
        0
    } else {
        days_before_month(year, month - 1) + month_length(year, month - 1)
    }
}

impl Date {
    pub open spec fn valid(self) -> bool {
        is_ymd(self.year as int, self.month as int, self.day as int)
    }

    /// The days, counted from the first one of year 1, which is day 1.
    pub open spec fn number(self) -> int {
        days_before_year(self.year as int) + days_before_month(self.year as int, self.month as int)
            + self.day
    }

    /// The first day of the same month.
    pub open spec fn month_start(self) -> Date {
        Date { year: self.year, month: self.month, day: 1 }
    }

    /// Days since Monday.
    pub open spec fn days_since_monday(self) -> int {
        (self.number() - 1) % 7
    }
}

/// `a` is an earlier day than `b`.
pub open spec fn earlier(a: Date, b: Date) -> bool {
    ||| a.year < b.year
    ||| a.year == b.year && a.month < b.month
    ||| a.year == b.year && a.month == b.month && a.day < b.day
}

/// The first day that there is.
pub open spec fn first_day() -> Date {
    Date { year: MIN_YEAR, month: 1, day: 1 }
}

/// The last day that there is.
pub open spec fn last_day() -> Date {
    Date { year: MAX_YEAR, month: 12, day: 31 }
}

proof fn lemma_every_fourth(year: int)
    ensures
        year / 4 == (year - 1) / 4 + if year % 4 == 0 {
            1int
        } else {
            0
        },
        year / 100 == (year - 1) / 100 + if year % 100 == 0 {
            1int
        } else {
            0
        },
        year / 400 == (year - 1) / 400 + if year % 400 == 0 {
            1int
        } else {
            0
        },
{
}

proof fn lemma_centuries(year: int)
    ensures
        year % 100 == 0 ==> year % 4 == 0,
        year % 400 == 0 ==> year % 100 == 0,
{
}

proof fn lemma_year_step(year: int)
    ensures
        days_before_year(year + 1) == days_before_year(year) + if is_leap(year) {
            366int
        } else {
            365
        },
{
    let before = year - 1;
    lemma_every_fourth(year);
    lemma_centuries(year);
    assert(days_before_year(year + 1) == 365 * year + year / 4 - year / 100 + year / 400);
    assert(days_before_year(year) == 365 * before + before / 4 - before / 100 + before / 400);
}

proof fn lemma_year_order(a: int, b: int)
    requires
        a < b,
    ensures
        days_before_year(a) + 365 <= days_before_year(b),
        is_leap(a) ==> days_before_year(a) + 366 <= days_before_year(b),
    decreases b - a,
{
    lemma_year_step(b - 1);
    if a < b - 1 {
        lemma_year_order(a, b - 1);
    }
}

proof fn lemma_month_order(year: int, a: int, b: int)
    requires
        1 <= a < b <= 13,
    ensures
        days_before_month(year, a) + month_length(year, a) <= days_before_month(year, b),
    decreases b - a,
{
    if a < b - 1 {
        lemma_month_order(year, a, b - 1);
    }
}

proof fn lemma_year_length(year: int)
    ensures
        days_before_month(year, 13) == if is_leap(year) {
            366int
        } else {
            365
        },
{
    reveal_with_fuel(days_before_month, 14);
}

/// Days are numbered in order, so no two days have the same number.
pub proof fn law_days_are_numbered_in_order(a: Date, b: Date)
    requires
        a.valid(),
        b.valid(),
    ensures
        earlier(a, b) <==> a.number() < b.number(),
        a == b <==> a.number() == b.number(),
{
    if earlier(a, b) {
        lemma_numbers(a, b);
    } else if earlier(b, a) {
        lemma_numbers(b, a);
    }
}

proof fn lemma_numbers(a: Date, b: Date)
    requires
        a.valid(),
        b.valid(),
        earlier(a, b),
    ensures
        a.number() < b.number(),
{
    if a.year < b.year {
        lemma_year_order(a.year as int, b.year as int);
        lemma_month_order(a.year as int, a.month as int, 13);
        lemma_year_length(a.year as int);
        lemma_month_start(b);
    } else if a.month < b.month {
        lemma_month_order(a.year as int, a.month as int, b.month as int);
    }
}

/// Every date lies between the first and the last one.
pub proof fn lemma_number_bounds(d: Date)
    requires
        d.valid(),
    ensures
        first_day().number() <= d.number() <= last_day().number(),
{
    law_days_are_numbered_in_order(d, first_day());
    law_days_are_numbered_in_order(last_day(), d);
}

proof fn lemma_month_start(d: Date)
    requires
        d.valid(),
    ensures
        days_before_month(d.year as int, d.month as int) >= 0,
{
    if d.month > 1 {
        lemma_month_order(d.year as int, 1, d.month as int);
    }
}

/// `chrono::NaiveDate::from_ymd_opt` makes a date exactly of a year in range, a
/// month and a day of that month.
#[verifier::external_body]
fn is_date(year: i32, month: u32, day: u32) -> (r: bool)
    ensures
        r == is_ymd(year as int, month as int, day as int),
{
    chrono::NaiveDate::from_ymd_opt(year, month, day).is_some()
}

/// More days than there are.
pub const MOST_DAYS: i64 = 100_000_000_000;

/// No two days are as many as `MOST_DAYS` apart.
proof fn lemma_few_days()
    ensures
        last_day().number() - first_day().number() < MOST_DAYS,
{
    reveal_with_fuel(days_before_month, 13);
}

/// `chrono::NaiveDate::checked_add_signed` moves a date by a number of days, and
/// makes no date where there is none any more. `chrono::TimeDelta::days` takes all
/// the days within the bounds here, and panics not far beyond them.
#[verifier::external_body]
fn plus_days(date: Date, days: i64) -> (r: Option<Date>)
    requires
        date.valid(),
        -MOST_DAYS <= days <= MOST_DAYS,
    ensures
        match r {
            Some(d) => d.valid() && d.number() == date.number() + days,
            None => date.number() + days < first_day().number() || date.number() + days
                > last_day().number(),
        },
{
    let start = chrono::NaiveDate::from_ymd_opt(date.year, date.month, date.day)?;
    let end = start.checked_add_signed(chrono::TimeDelta::days(days))?;
    Some(
        Date {
            year: chrono::Datelike::year(&end),
            month: chrono::Datelike::month(&end),
            day: chrono::Datelike::day(&end),
        },
    )
}

/// `chrono::Datelike::weekday` and `chrono::Weekday::num_days_from_monday`: the
/// days since Monday, day 1 being one.
#[verifier::external_body]
fn weekday_of(date: Date) -> (r: u32)
    requires
        date.valid(),
    ensures
        r == date.days_since_monday(),
        r < 7,
{
    let day = chrono::NaiveDate::from_ymd_opt(date.year, date.month, date.day).unwrap();
    chrono::Datelike::weekday(&day).num_days_from_monday()
}

/// `chrono::NaiveDate::signed_duration_since` and `chrono::TimeDelta::num_days`:
/// the days from one date to another.
#[verifier::external_body]
fn days_from(start: Date, end: Date) -> (r: i64)
    requires
        start.valid(),
        end.valid(),
    ensures
        r == end.number() - start.number(),
{
    let a = chrono::NaiveDate::from_ymd_opt(start.year, start.month, start.day).unwrap();
    let b = chrono::NaiveDate::from_ymd_opt(end.year, end.month, end.day).unwrap();
    b.signed_duration_since(a).num_days()
}

/// Two digits.
pub open spec fn two_digits(n: int) -> Seq<char> {
    seq![text::digit_char(n / 10 % 10), text::digit_char(n % 10)]
}

/// At least four digits.
pub open spec fn four_digits(n: int) -> Seq<char> {
    if n < 10_000 {
        two_digits(n / 100) + two_digits(n % 100)
    } else {
        text::decimal(n as nat)
    }
}

/// A year: four digits, or a sign and at least four.
pub open spec fn year_text(year: int) -> Seq<char> {
    if 0 <= year < 10_000 {
        four_digits(year)
    } else if year < 0 {
        seq!['-'] + four_digits(-year)
    } else {
        seq!['+'] + four_digits(year)
    }
}

/// `2026-04-22`.
pub open spec fn iso_text(d: Date) -> Seq<char> {
    year_text(d.year as int) + seq!['-'] + two_digits(d.month as int) + seq!['-'] + two_digits(
        d.day as int,
    )
}

pub open spec fn short_weekday(since_monday: int) -> Seq<char> {
    if since_monday == 0 {
        "Mon"@
    } else if since_monday == 1 {
        "Tue"@
    } else if since_monday == 2 {
        "Wed"@
    } else if since_monday == 3 {
        "Thu"@
    } else if since_monday == 4 {
        "Fri"@
    } else if since_monday == 5 {
        "Sat"@
    } else {
        "Sun"@
    }
}

pub open spec fn short_month(month: int) -> Seq<char> {
    if month == 1 {
        "Jan"@
    } else if month == 2 {
        "Feb"@
    } else if month == 3 {
        "Mar"@
    } else if month == 4 {
        "Apr"@
    } else if month == 5 {
        "May"@
    } else if month == 6 {
        "Jun"@
    } else if month == 7 {
        "Jul"@
    } else if month == 8 {
        "Aug"@
    } else if month == 9 {
        "Sep"@
    } else if month == 10 {
        "Oct"@
    } else if month == 11 {
        "Nov"@
    } else {
        "Dec"@
    }
}

/// `2026-04-22 (Wed)`.
pub open spec fn day_text(d: Date) -> Seq<char> {
    iso_text(d) + " ("@ + short_weekday(d.days_since_monday()) + ")"@
}

/// `Wed Apr 22`.
pub open spec fn spoken_text(d: Date) -> Seq<char> {
    short_weekday(d.days_since_monday()) + " "@ + short_month(d.month as int) + " "@
        + text::decimal(d.day as nat)
}

/// `chrono::NaiveDate::format`, for three formats: `%Y` is the year in four
/// digits, or with a sign where it needs one, `%m` and `%d` are two digits, `%a`
/// and `%b` are the first three letters of the day's and the month's English
/// name, and `%-d` is the day without a leading zero.
#[verifier::external_body]
fn format_date(date: Date, format: &str) -> (r: String)
    requires
        date.valid(),
        format@ == "%Y-%m-%d"@ || format@ == "%Y-%m-%d (%a)"@ || format@ == "%a %b %-d"@,
    ensures
        format@ == "%Y-%m-%d"@ ==> r@ == iso_text(date),
        format@ == "%Y-%m-%d (%a)"@ ==> r@ == day_text(date),
        format@ == "%a %b %-d"@ ==> r@ == spoken_text(date),
{
    let day = chrono::NaiveDate::from_ymd_opt(date.year, date.month, date.day).unwrap();
    day.format(format).to_string()
}

impl Date {
    /// The date of a year, a month and a day, where there is one.
    pub fn from_ymd(year: i32, month: u32, day: u32) -> (r: Option<Date>)
        ensures
            r == (if is_ymd(year as int, month as int, day as int) {
                Some(Date { year, month, day })
            } else {
                None
            }),
    {
        if is_date(year, month, day) {
            Some(Date { year, month, day })
        } else {
            None
        }
    }

    /// The date some days later, or earlier, where there is one.
    pub fn add_days(self, days: i64) -> (r: Option<Date>)
        requires
            self.valid(),
        ensures
            match r {
                Some(d) => d.valid() && d.number() == self.number() + days,
                None => self.number() + days < first_day().number() || self.number() + days
                    > last_day().number(),
            },
    {
        if days < -MOST_DAYS || days > MOST_DAYS {
            proof {
                lemma_number_bounds(self);
                lemma_few_days();
            }
            return None;
        }
        plus_days(self, days)
    }

    /// Days since Monday.
    pub fn weekday(self) -> (r: u32)
        requires
            self.valid(),
        ensures
            r == self.days_since_monday(),
            r < 7,
    {
        weekday_of(self)
    }

    /// The days until `end`.
    pub fn days_until(self, end: Date) -> (r: i64)
        requires
            self.valid(),
            end.valid(),
        ensures
            r == end.number() - self.number(),
    {
        days_from(self, end)
    }

    /// Whether this day is earlier than `other`.
    pub fn is_before(self, other: Date) -> (r: bool)
        ensures
            r == earlier(self, other),
    {
        self.year < other.year || (self.year == other.year && (self.month < other.month || (
        self.month == other.month && self.day < other.day)))
    }

    /// `2026-04-22`.
    pub fn iso(self) -> (r: String)
        requires
            self.valid(),
        ensures
            r@ == iso_text(self),
    {
        format_date(self, "%Y-%m-%d")
    }

    /// `2026-04-22 (Wed)`.
    pub fn with_weekday(self) -> (r: String)
        requires
            self.valid(),
        ensures
            r@ == day_text(self),
    {
        format_date(self, "%Y-%m-%d (%a)")
    }

    /// `Wed Apr 22`.
    pub fn spoken(self) -> (r: String)
        requires
            self.valid(),
        ensures
            r@ == spoken_text(self),
    {
        format_date(self, "%a %b %-d")
    }
}

/// The first day of the month of `d`.
pub fn first_of_month(d: Date) -> (r: Date)
    requires
        d.valid(),
    ensures
        r == d.month_start(),
        r.valid(),
{
    Date { year: d.year, month: d.month, day: 1 }
}

/// The number of days of a month: the day in front of the first one of the next
/// month.
pub fn days_in_month(year: i32, month: u32) -> (r: u32)
    requires
        is_ymd(year as int, month as int, 1),
    ensures
        r == month_length(year as int, month as int),
{
    if year == MAX_YEAR && month == 12 {
        return 31;
    }
    let next = if month == 12 {
        Date { year: year + 1, month: 1, day: 1 }
    } else {
        Date { year, month: month + 1, day: 1 }
    };
    let ghost last = Date {
        year,
        month,
        day: month_length(year as int, month as int) as u32,
    };
    proof {
        lemma_year_step(year as int);
        lemma_year_length(year as int);
        assert(last.number() == next.number() - 1);
        law_days_are_numbered_in_order(first_day(), last);
        law_days_are_numbered_in_order(last, last_day());
    }
    match next.add_days(-1) {
        Some(d) => {
            proof {
                law_days_are_numbered_in_order(d, last);
            }
            d.day
        },
        None => {
            proof {
                assert(earlier(first_day(), last) || first_day() == last);
                assert(earlier(last, last_day()) || last_day() == last);
            }
            0
        },
    }
}

/// The English name of a month.
pub open spec fn month_title(m: int) -> Seq<char> {
    if m == 1 {
        "January"@
    } else if m == 2 {
        "February"@
    } else if m == 3 {
        "March"@
    } else if m == 4 {
        "April"@
    } else if m == 5 {
        "May"@
    } else if m == 6 {
        "June"@
    } else if m == 7 {
        "July"@
    } else if m == 8 {
        "August"@
    } else if m == 9 {
        "September"@
    } else if m == 10 {
        "October"@
    } else if m == 11 {
        "November"@
    } else if m == 12 {
        "December"@
    } else {
        "?"@
    }
}

/// The English name of a month.
pub fn month_name(m: u32) -> (r: &'static str)
    ensures
        r@ == month_title(m as int),
{
    match m {
        1 => "January",
        2 => "February",
        3 => "March",
        4 => "April",
        5 => "May",
        6 => "June",
        7 => "July",
        8 => "August",
        9 => "September",
        10 => "October",
        11 => "November",
        12 => "December",
        _ => "?",
    }
}

/// The day number of the first of January 1970.
pub const EPOCH_DAY: i64 = 719163;

/// The number of the day on which a clock shows `seconds` since the start of
/// 1970.
pub open spec fn clock_day(seconds: int) -> int {
    seconds / 86400 + EPOCH_DAY
}

/// A moment: seconds since the start of 1970 in Greenwich, and how many seconds
/// the local clock is ahead of that.
#[derive(Clone, Copy, PartialEq, Eq, Structural, Debug)]
pub struct Instant {
    pub seconds: i64,
    pub offset: i32,
}

impl Instant {
    /// Both in Greenwich and here it is a day of the calendar.
    pub open spec fn valid(self) -> bool {
        &&& -86400 < self.offset < 86400
        &&& first_day().number() <= clock_day(self.seconds as int) <= last_day().number()
        &&& first_day().number() <= clock_day(self.seconds + self.offset) <= last_day().number()
    }

    /// Seconds since midnight on the local clock.
    pub open spec fn second_of_day(self) -> int {
        (self.seconds + self.offset) % 86400
    }

    /// `d` is the day on the local clock.
    pub open spec fn on_day(self, d: Date) -> bool {
        d.valid() && d.number() == clock_day(self.seconds + self.offset)
    }
}

/// `09:30`.
pub open spec fn clock_text(second_of_day: int) -> Seq<char> {
    two_digits(second_of_day / 3600) + seq![':'] + two_digits(second_of_day / 60 % 60)
}

/// `+0200`, rounded to minutes.
pub open spec fn offset_text(offset: int) -> Seq<char> {
    let size = if offset < 0 {
        -offset
    } else {
        offset
    };
    let minutes = (size + 30) / 60;
    (if offset < 0 {
        seq!['-']
    } else {
        seq!['+']
    }) + two_digits(minutes / 60) + two_digits(minutes % 60)
}

/// `2026-04-22T09:00:00.000+0000`.
pub open spec fn jira_text(d: Date, i: Instant) -> Seq<char> {
    iso_text(d) + seq!['T'] + clock_text(i.second_of_day()) + seq![':'] + two_digits(
        i.second_of_day() % 60,
    ) + ".000"@ + offset_text(i.offset as int)
}

/// `2026-04-22 09:00`.
pub open spec fn minute_text(d: Date, i: Instant) -> Seq<char> {
    iso_text(d) + seq![' '] + clock_text(i.second_of_day())
}

/// `s` is what the local clock and calendar show.
pub open spec fn shown_for_jira(at: Instant, s: Seq<char>) -> bool {
    exists|d: Date| at.on_day(d) && s == #[trigger] jira_text(d, at)
}

/// `s` is what the local clock and calendar show, without seconds.
pub open spec fn shown_to_minute(at: Instant, s: Seq<char>) -> bool {
    exists|d: Date| at.on_day(d) && s == #[trigger] minute_text(d, at)
}

/// What the local clock and calendar show, without seconds.
pub open spec fn local_minute(at: Instant) -> Seq<char> {
    choose|s: Seq<char>| shown_to_minute(at, s)
}

/// `chrono::FixedOffset::east_opt`, `chrono::TimeZone::timestamp_opt` and
/// `chrono::DateTime::format`, for three formats: what the local clock shows, with
/// `%.3f` the milliseconds, which are none, and `%z` the offset in hours and
/// minutes.
#[verifier::external_body]
fn format_instant(at: Instant, format: &str) -> (r: String)
    requires
        at.valid(),
        format@ == "%Y-%m-%dT%H:%M:%S%.3f%z"@ || format@ == "%Y-%m-%d %H:%M"@ || format@
            == "%H:%M"@,
    ensures
        format@ == "%Y-%m-%dT%H:%M:%S%.3f%z"@ ==> shown_for_jira(at, r@),
        format@ == "%Y-%m-%d %H:%M"@ ==> shown_to_minute(at, r@),
        format@ == "%H:%M"@ ==> r@ == clock_text(at.second_of_day()),
{
    let zone = chrono::FixedOffset::east_opt(at.offset).unwrap();
    let moment = chrono::TimeZone::timestamp_opt(&zone, at.seconds, 0).unwrap();
    moment.format(format).to_string()
}

/// The numbers of the first and the last day.
pub proof fn lemma_number_limits()
    ensures
        first_day().number() == -95746129,
        last_day().number() == 95745399,
{
    reveal_with_fuel(days_before_month, 13);
}

impl Instant {
    /// The moment of a time and an offset, where both clocks show a day of the
    /// calendar.
    pub fn new(seconds: i64, offset: i32) -> (r: Option<Instant>)
        ensures
            r == (if (Instant { seconds, offset }).valid() {
                Some(Instant { seconds, offset })
            } else {
                None
            }),
    {
        proof {
            lemma_number_limits();
        }
        if offset <= -86400 || offset >= 86400 {
            return None;
        }
        let low: i64 = -8334601228800;
        let high: i64 = 8210266876799;
        if seconds < low || seconds > high {
            return None;
        }
        let here: i64 = seconds + offset as i64;
        if here < low || here > high {
            return None;
        }
        Some(Instant { seconds, offset })
    }

    /// `2026-04-22T09:00:00.000+0000`.
    pub fn for_jira(self) -> (r: String)
        requires
            self.valid(),
        ensures
            shown_for_jira(self, r@),
    {
        format_instant(self, "%Y-%m-%dT%H:%M:%S%.3f%z")
    }

    /// `2026-04-22 09:00`.
    pub fn to_minute(self) -> (r: String)
        requires
            self.valid(),
        ensures
            shown_to_minute(self, r@),
            r@ == local_minute(self),
    {
        let out = format_instant(self, "%Y-%m-%d %H:%M");
        proof {
            let s = local_minute(self);
            assert(shown_to_minute(self, s));
            let a = choose|d: Date| self.on_day(d) && s == #[trigger] minute_text(d, self);
            let b = choose|d: Date| self.on_day(d) && out@ == #[trigger] minute_text(d, self);
            law_days_are_numbered_in_order(a, b);
        }
        out
    }

    /// `09:00`.
    pub fn clock(self) -> (r: String)
        requires
            self.valid(),
        ensures
            r@ == clock_text(self.second_of_day()),
    {
        format_instant(self, "%H:%M")
    }
}

/// The days are numbered one after the other, through the ends of months and of years, and
/// the week goes on with them.
pub proof fn law_days_follow_each_other(a: Date, b: Date)
    requires
        a.valid(),
        b.valid(),
        ({
            ||| b.year == a.year && b.month == a.month && b.day == a.day + 1
            ||| b.year == a.year && b.month == a.month + 1 && b.day == 1 && a.day == month_length(
                a.year as int,
                a.month as int,
            )
            ||| b.year == a.year + 1 && b.month == 1 && b.day == 1 && a.month == 12 && a.day == 31
        }),
    ensures
        b.number() == a.number() + 1,
        b.days_since_monday() == (a.days_since_monday() + 1) % 7,
        earlier(a, b),
{
    let y = a.year as int;
    let m = a.month as int;
    assert(days_before_month(y, m + 1) == days_before_month(y, m) + month_length(y, m));
    if b.year == a.year + 1 {
        law_leap_years_have_a_day_more(y);
        assert(days_before_month(y + 1, 1) == 0);
    }
    assert(b.number() == a.number() + 1);
    lemma_next_weekday(a.number());
}

proof fn lemma_next_weekday(n: int)
    ensures
        n % 7 == ((n - 1) % 7 + 1) % 7,
{
}

/// The first day of 1970 was a Thursday, and clocks count from its start.
pub proof fn law_the_clock_starts_on_a_thursday(d: Date, second: int)
    requires
        d.year == 1970 && d.month == 1 && d.day == 1,
        0 <= second < 86400,
    ensures
        d.days_since_monday() == 3,
        clock_day(second) == d.number(),
        clock_day(second - 86400) == d.number() - 1,
        clock_day(second + 86400) == d.number() + 1,
{
    lemma_day_of(second, 0);
    lemma_day_of(second, -1);
    lemma_day_of(second, 1);
}

proof fn lemma_day_of(second: int, days: int)
    requires
        0 <= second < 86400,
    ensures
        (second + 86400 * days) / 86400 == days,
{
}

/// A year has 365 days, or 366 where it can be divided by four; of the full centuries only
/// every fourth is such a year.
pub proof fn law_leap_years_have_a_day_more(year: int)
    ensures
        days_before_month(year, 12) + 31 == if is_leap(year) {
            366int
        } else {
            365
        },
        days_before_year(year + 1) - days_before_year(year) == days_before_month(year, 12) + 31,
        year % 4 != 0 ==> !is_leap(year),
        year % 400 == 0 ==> is_leap(year),
        year % 4 == 0 && year % 100 != 0 ==> is_leap(year),
        year % 100 == 0 && year % 400 != 0 ==> !is_leap(year),
{
    lemma_months(year);
    assert(days_before_year(year + 1) - days_before_year(year) == 365 + if is_leap(year) {
        1int
    } else {
        0
    }) by {
        lemma_every_fourth(year);
        lemma_centuries(year);
    }
    lemma_centuries(year);
}

proof fn lemma_months(year: int)
    ensures
        days_before_month(year, 12) == 334 + if is_leap(year) {
            1int
        } else {
            0
        },
{
    assert(days_before_month(year, 1) == 0);
    assert(days_before_month(year, 2) == 31);
    assert(days_before_month(year, 3) == 31 + month_length(year, 2));
    assert(days_before_month(year, 4) == 62 + month_length(year, 2));
    assert(days_before_month(year, 5) == 92 + month_length(year, 2));
    assert(days_before_month(year, 6) == 123 + month_length(year, 2));
    assert(days_before_month(year, 7) == 153 + month_length(year, 2));
    assert(days_before_month(year, 8) == 184 + month_length(year, 2));
    assert(days_before_month(year, 9) == 215 + month_length(year, 2));
    assert(days_before_month(year, 10) == 245 + month_length(year, 2));
    assert(days_before_month(year, 11) == 276 + month_length(year, 2));
}

/// Two digits say a number below a hundred.
pub proof fn law_two_digits_say_the_number(n: int)
    requires
        0 <= n < 100,
    ensures
        two_digits(n).len() == 2,
        '0' <= two_digits(n)[0] <= '9',
        '0' <= two_digits(n)[1] <= '9',
        crate::number::digits_value(two_digits(n)) == n,
{
    reveal_with_fuel(crate::number::digits_value, 3);
    let s = two_digits(n);
    assert(s.drop_last().drop_last() =~= Seq::empty());
    assert(s.drop_last().last() == s[0]);
}

/// A day of a year with four digits is written as year, month and day.
pub proof fn law_days_are_written_by_parts(d: Date)
    requires
        d.valid(),
        0 <= d.year < 10_000,
    ensures
        iso_text(d).len() == 10,
        crate::number::digits_value(iso_text(d).take(4)) == d.year,
        iso_text(d)[4] == '-',
        crate::number::digits_value(iso_text(d).subrange(5, 7)) == d.month,
        iso_text(d)[7] == '-',
        crate::number::digits_value(iso_text(d).skip(8)) == d.day,
{
    let s = iso_text(d);
    let y = d.year as int;
    law_two_digits_say_the_number(y / 100);
    law_two_digits_say_the_number(y % 100);
    law_two_digits_say_the_number(d.month as int);
    law_two_digits_say_the_number(d.day as int);
    assert(s.take(4) =~= two_digits(y / 100) + two_digits(y % 100));
    assert(s.subrange(5, 7) =~= two_digits(d.month as int));
    assert(s.skip(8) =~= two_digits(d.day as int));
    let a = two_digits(y / 100);
    let b = two_digits(y % 100);
    let all = a + b;
    reveal_with_fuel(crate::number::digits_value, 3);
    assert(all.drop_last() =~= a + b.drop_last());
    assert((a + b.drop_last()).drop_last() =~= a);
    assert(b.drop_last().drop_last() =~= Seq::empty());
    assert(b.drop_last().last() == b[0]);
    assert((a + b.drop_last()).last() == b[0]);
}

/// A clock shows the hours and minutes since midnight.
pub proof fn law_clocks_show_hours_and_minutes(hour: int, minute: int, second: int)
    requires
        0 <= hour < 24,
        0 <= minute < 60,
        0 <= second < 60,
    ensures
        clock_text(hour * 3600 + minute * 60 + second) == two_digits(hour) + seq![':']
            + two_digits(minute),
{
    let n = hour * 3600 + minute * 60 + second;
    assert(n / 3600 == hour);
    assert(n / 60 == hour * 60 + minute);
    assert((hour * 60 + minute) % 60 == minute);
}

/// An offset from Greenwich is written as a sign, hours and minutes.
pub proof fn law_offsets_are_written(hour: int, minute: int)
    requires
        0 <= hour < 24,
        0 <= minute < 60,
    ensures
        offset_text(hour * 3600 + minute * 60) == seq!['+'] + two_digits(hour) + two_digits(minute),
        hour + minute > 0 ==> offset_text(-(hour * 3600 + minute * 60)) == seq!['-'] + two_digits(
            hour,
        ) + two_digits(minute),
{
    let m = hour * 60 + minute;
    assert((m * 60 + 30) / 60 == m);
    assert(m / 60 == hour);
    assert(m % 60 == minute);
}

/// What Jira is told of a moment: the local day, the local time, and the offset.
pub proof fn law_jira_is_told_the_local_time(at: Instant, s: Seq<char>, d: Date)
    requires
        at.valid(),
        shown_for_jira(at, s),
        d.valid(),
        d.number() == (at.seconds + at.offset) / 86400 + 719163,
    ensures
        ({
            let rest = (at.seconds + at.offset) % 86400;
            s == iso_text(d) + "T"@ + two_digits(rest / 3600) + ":"@ + two_digits(rest / 60 % 60)
                + ":"@ + two_digits(rest % 60) + ".000"@ + offset_text(at.offset as int)
        }),
{
    let e = choose|e: Date| at.on_day(e) && s == #[trigger] jira_text(e, at);
    law_days_are_numbered_in_order(d, e);
    reveal_strlit("T");
    reveal_strlit(":");
    let rest = (at.seconds + at.offset) % 86400;
    assert(s =~= iso_text(d) + "T"@ + two_digits(rest / 3600) + ":"@ + two_digits(rest / 60 % 60)
        + ":"@ + two_digits(rest % 60) + ".000"@ + offset_text(at.offset as int));
}

} // verus!
