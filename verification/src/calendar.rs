use vstd::prelude::*;
use chrono::Datelike;
use chrono::Timelike;
use crate::text::string_from_chars;

verus! {

/// The earliest year that a date can have.
pub const MIN_YEAR: i32 = -262143;

/// The latest year that a date can have.
pub const MAX_YEAR: i32 = 262142;

/// A calendar date of the proleptic Gregorian calendar.
#[derive(Clone, Copy, Debug, PartialEq, Eq, Structural)]
pub struct Date {
    pub year: i32,
    pub month: u32,
    pub day: u32,
}

/// A time of day with minute precision.
#[derive(Clone, Copy, Debug, PartialEq, Eq, Structural)]
pub struct Time {
    pub hour: u32,
    pub minute: u32,
}

pub open spec fn is_leap_year(y: int) -> bool {
    (y % 4 == 0 && y % 100 != 0) || y % 400 == 0
}

pub open spec fn year_length(y: int) -> int {
    if is_leap_year(y) {
        366
    } else {
        365
    }
}

pub open spec fn days_in_month(y: int, m: int) -> int {
    if m == 2 {
        if is_leap_year(y) {
            29
        } else {
            28
        }
    } else if m == 4 || m == 6 || m == 9 || m == 11 {
        30
    } else {
        31
    }
}

pub open spec fn valid_ymd(y: int, m: int, d: int) -> bool {
    &&& MIN_YEAR <= y <= MAX_YEAR
    &&& 1 <= m <= 12
    &&& 1 <= d <= days_in_month(y, m)
}

/// Days of year `y` that come before month `m`.
pub open spec fn days_before_month(y: int, m: int) -> int
    decreases m,
{
    if m <= 1 {
        0
    } else {
        days_before_month(y, m - 1) + days_in_month(y, m - 1)
    }
}

/// Days from 1970-01-01 to the first day of year `y` (negative before 1970).
pub open spec fn days_before_year(y: int) -> int
    decreases (if y >= 1970 {
        y - 1970
    } else {
        1970 - y
    }),
{
    if y == 1970 {
        0
    } else if y > 1970 {
        days_before_year(y - 1) + year_length(y - 1)
    } else {
        days_before_year(y + 1) - year_length(y)
    }
}

/// The number of the day `y-m-d`, counted from 1970-01-01.
pub open spec fn day_number(y: int, m: int, d: int) -> int {
    days_before_year(y) + days_before_month(y, m) + d - 1
}

/// The day of the week of day number `n`, counted from Monday (1970-01-01
/// was a Thursday).
pub open spec fn weekday_of(n: int) -> int {
    (n + 3) % 7
}

/// Whether day number `n` lies between the first and the last date.
pub open spec fn day_in_range(n: int) -> bool {
    day_number(MIN_YEAR as int, 1, 1) <= n <= day_number(MAX_YEAR as int, 12, 31)
}

impl Date {
    pub open spec fn wf(self) -> bool {
        valid_ymd(self.year as int, self.month as int, self.day as int)
    }

    pub open spec fn number(self) -> int {
        day_number(self.year as int, self.month as int, self.day as int)
    }

    /// Calendar order.
    pub open spec fn before(self, other: Date) -> bool {
        ||| self.year < other.year
        ||| self.year == other.year && self.month < other.month
        ||| self.year == other.year && self.month == other.month && self.day < other.day
    }
}

impl Time {
    pub open spec fn wf(self) -> bool {
        self.hour < 24 && self.minute < 60
    }
}

proof fn lemma_days_before_month_values(y: int)
    ensures
        days_before_month(y, 1) == 0,
        days_before_month(y, 2) == 31,
        days_before_month(y, 3) == 31 + days_in_month(y, 2),
        days_before_month(y, 4) == 62 + days_in_month(y, 2),
        days_before_month(y, 5) == 92 + days_in_month(y, 2),
        days_before_month(y, 6) == 123 + days_in_month(y, 2),
        days_before_month(y, 7) == 153 + days_in_month(y, 2),
        days_before_month(y, 8) == 184 + days_in_month(y, 2),
        days_before_month(y, 9) == 215 + days_in_month(y, 2),
        days_before_month(y, 10) == 245 + days_in_month(y, 2),
        days_before_month(y, 11) == 276 + days_in_month(y, 2),
        days_before_month(y, 12) == 306 + days_in_month(y, 2),
        days_before_month(y, 13) == year_length(y),
{
    reveal_with_fuel(days_before_month, 13);
}

/// Months end where the next one starts, and the year has its length.
pub proof fn lemma_month_end(y: int, m: int)
    requires
        1 <= m <= 12,
    ensures
        days_before_month(y, m + 1) == days_before_month(y, m) + days_in_month(y, m),
        days_before_month(y, m) + days_in_month(y, m) <= year_length(y),
        0 <= days_before_month(y, m),
{
    lemma_days_before_month_values(y);
}

proof fn lemma_month_order(y: int, m1: int, m2: int)
    requires
        1 <= m1 < m2 <= 13,
    ensures
        days_before_month(y, m1) + days_in_month(y, m1) <= days_before_month(y, m2),
{
    lemma_days_before_month_values(y);
}

pub proof fn lemma_year_step(y: int)
    ensures
        days_before_year(y + 1) == days_before_year(y) + year_length(y),
{
    if y >= 1970 {
        assert(days_before_year(y + 1) == days_before_year(y) + year_length(y));
    } else {
        assert(days_before_year(y) == days_before_year(y + 1) - year_length(y));
    }
}

proof fn lemma_year_order(a: int, b: int)
    requires
        a < b,
    ensures
        days_before_year(a) + year_length(a) <= days_before_year(b),
    decreases b - a,
{
    lemma_year_step(a);
    if a + 1 < b {
        lemma_year_order(a + 1, b);
        lemma_year_step(a + 1);
    }
}

/// The day number of a valid date lies within its year.
pub proof fn lemma_day_in_year(y: int, m: int, d: int)
    requires
        1 <= m <= 12,
        1 <= d <= days_in_month(y, m),
    ensures
        days_before_year(y) <= day_number(y, m, d) < days_before_year(y) + year_length(y),
{
    lemma_month_end(y, m);
}

/// Calendar order and day numbers agree.
pub proof fn lemma_date_order(a: Date, b: Date)
    requires
        a.wf(),
        b.wf(),
    ensures
        a.before(b) <==> a.number() < b.number(),
        a == b <==> a.number() == b.number(),
{
    lemma_day_in_year(a.year as int, a.month as int, a.day as int);
    lemma_day_in_year(b.year as int, b.month as int, b.day as int);
    if a.year < b.year {
        lemma_year_order(a.year as int, b.year as int);
    } else if b.year < a.year {
        lemma_year_order(b.year as int, a.year as int);
    } else if a.month < b.month {
        lemma_month_order(a.year as int, a.month as int, b.month as int);
    } else if b.month < a.month {
        lemma_month_order(a.year as int, b.month as int, a.month as int);
    }
}

/// Every valid date has a day number in range.
pub proof fn lemma_date_in_range(d: Date)
    requires
        d.wf(),
    ensures
        day_in_range(d.number()),
{
    let first = Date { year: MIN_YEAR, month: 1, day: 1 };
    let last = Date { year: MAX_YEAR, month: 12, day: 31 };
    lemma_date_order(first, d);
    lemma_date_order(d, last);
}

/// Day number of the first day of the next month.
pub proof fn lemma_next_month_start(y: int, m: int)
    requires
        1 <= m <= 12,
    ensures
        m < 12 ==> day_number(y, m + 1, 1) == day_number(y, m, days_in_month(y, m)) + 1,
        m == 12 ==> day_number(y + 1, 1, 1) == day_number(y, m, days_in_month(y, m)) + 1,
{
    lemma_days_before_month_values(y);
    lemma_year_step(y);
    lemma_days_before_month_values(y + 1);
}

pub open spec fn digit_char(n: int) -> char {
    (n + 48) as char
}

pub open spec fn is_ascii_digit(c: char) -> bool {
    '0' <= c && c <= '9'
}

pub open spec fn digit_value(c: char) -> int {
    c as int - 48
}

/// The decimal digits of `n`.
pub open spec fn decimal(n: nat) -> Seq<char>
    decreases n,
{
    if n < 10 {
        seq![digit_char(n as int)]
    } else {
        decimal(n / 10).push(digit_char((n % 10) as int))
    }
}

/// `s` with zeros before it up to width `w`.
pub open spec fn zero_padded(s: Seq<char>, w: int) -> Seq<char> {
    if s.len() >= w {
        s
    } else {
        Seq::new((w - s.len()) as nat, |i: int| '0') + s
    }
}

/// An integer written with zeros up to width `w`, a sign counted in the
/// width (`format!("{:0w$}", n)`).
pub open spec fn padded_int(n: int, w: int) -> Seq<char> {
    if n < 0 {
        seq!['-'] + zero_padded(decimal((-n) as nat), w - 1)
    } else {
        zero_padded(decimal(n as nat), w)
    }
}

/// The year as a date shows it: four digits from 0 to 9999, else a sign and
/// at least four digits.
pub open spec fn year_text(y: int) -> Seq<char> {
    if 0 <= y <= 9999 {
        zero_padded(decimal(y as nat), 4)
    } else if y < 0 {
        seq!['-'] + zero_padded(decimal((-y) as nat), 4)
    } else {
        seq!['+'] + zero_padded(decimal(y as nat), 4)
    }
}

/// `YYYY-MM-DD`.
pub open spec fn date_text(d: Date) -> Seq<char> {
    year_text(d.year as int) + seq!['-'] + zero_padded(decimal(d.month as nat), 2) + seq!['-']
        + zero_padded(decimal(d.day as nat), 2)
}

/// `HH:MM`.
pub open spec fn time_text(t: Time) -> Seq<char> {
    zero_padded(decimal(t.hour as nat), 2) + seq![':'] + zero_padded(decimal(t.minute as nat), 2)
}

/// The `HH:MM` shape: two ASCII digits, a colon, two ASCII digits.
pub open spec fn is_clock_shape(s: Seq<char>) -> bool {
    &&& s.len() == 5
    &&& is_ascii_digit(s[0])
    &&& is_ascii_digit(s[1])
    &&& s[2] == ':'
    &&& is_ascii_digit(s[3])
    &&& is_ascii_digit(s[4])
}

pub open spec fn clock_hour(s: Seq<char>) -> int {
    digit_value(s[0]) * 10 + digit_value(s[1])
}

pub open spec fn clock_minute(s: Seq<char>) -> int {
    digit_value(s[3]) * 10 + digit_value(s[4])
}

/// The hour and the minute of an `HH:MM` text name a time of day.
pub open spec fn clock_in_day(s: Seq<char>) -> bool {
    clock_hour(s) < 24 && clock_minute(s) < 60
}

/// Two-digit numbers come out as two digits.
pub proof fn lemma_two_digits(n: nat)
    requires
        n < 100,
    ensures
        zero_padded(decimal(n), 2) == seq![digit_char((n / 10) as int), digit_char((n % 10) as int)],
{
    reveal_with_fuel(decimal, 2);
    if n < 10 {
        assert(zero_padded(decimal(n), 2) =~= seq!['0', digit_char(n as int)]);
        assert(digit_char(0) == '0');
    } else {
        assert(decimal(n / 10) == seq![digit_char((n / 10) as int)]);
        assert(zero_padded(decimal(n), 2) =~= seq![digit_char((n / 10) as int), digit_char((n % 10) as int)]);
    }
}

/// A time of day shows as `HH:MM`, which reads back as the same time.
pub proof fn lemma_time_text(t: Time)
    requires
        t.wf(),
    ensures
        time_text(t).len() == 5,
        is_clock_shape(time_text(t)),
        clock_hour(time_text(t)) == t.hour,
        clock_minute(time_text(t)) == t.minute,
        clock_in_day(time_text(t)),
        forall|i: int| 0 <= i < 5 ==> (#[trigger] time_text(t)[i] == ':' || is_ascii_digit(time_text(t)[i])),
{
    lemma_two_digits(t.hour as nat);
    lemma_two_digits(t.minute as nat);
    let s = time_text(t);
    assert(s =~= seq![
        digit_char((t.hour / 10) as int),
        digit_char((t.hour % 10) as int),
        ':',
        digit_char((t.minute / 10) as int),
        digit_char((t.minute % 10) as int),
    ]);
}

/// How `%Y-%m-%d` reads a text, as year, month and day.
pub uninterp spec fn parsed_ymd(text: Seq<char>) -> Option<(int, int, int)>;

/// Makes the date `year-month-day` if it exists.
#[verifier::external_body]
fn chrono_from_ymd(year: i32, month: u32, day: u32) -> (r: Option<Date>)
    ensures
        r is Some <==> valid_ymd(year as int, month as int, day as int),
        r matches Some(d) ==> d == (Date { year, month, day }),
{
    chrono::NaiveDate::from_ymd_opt(year, month, day).map(|_| Date { year, month, day })
}

/// The day of the week of a date, counted from Monday.
#[verifier::external_body]
fn chrono_weekday(d: &Date) -> (r: u32)
    requires
        d.wf(),
    ensures
        r == weekday_of(d.number()),
{
    chrono::NaiveDate::from_ymd_opt(d.year, d.month, d.day).unwrap().weekday().num_days_from_monday()
}

/// The date `n` days after `d`, if it lies in range.
#[verifier::external_body]
fn chrono_add_days(d: &Date, n: i64) -> (r: Option<Date>)
    requires
        d.wf(),
        -1_000_000_000 <= n <= 1_000_000_000,
    ensures
        r is Some <==> day_in_range(d.number() + n),
        r matches Some(x) ==> x.wf() && x.number() == d.number() + n,
{
    let date = chrono::NaiveDate::from_ymd_opt(d.year, d.month, d.day).unwrap();
    date.checked_add_signed(chrono::TimeDelta::days(n)).map(
        |x| Date { year: x.year(), month: x.month(), day: x.day() },
    )
}

/// A valid date shown as `%Y-%m-%d` (`Display` of a date).
#[verifier::external_body]
pub(crate) fn date_to_string(d: &Date) -> (r: String)
    requires
        d.wf(),
    ensures
        r@ == date_text(*d),
{
    chrono::NaiveDate::from_ymd_opt(d.year, d.month, d.day).unwrap().to_string()
}

/// Reads a date written as `%Y-%m-%d` (`NaiveDate::parse_from_str`); a
/// date of a four-digit year, written as a date shows itself, reads back as
/// that date, the format being the one of `Display`.
#[verifier::external_body]
fn chrono_parse_ymd(text: &str) -> (r: Option<Date>)
    ensures
        r is None <==> parsed_ymd(text@) is None,
        r matches Some(d) ==> d.wf() && parsed_ymd(text@) == Some(
            (d.year as int, d.month as int, d.day as int),
        ),
        forall|x: Date|
            x.wf() && 0 <= x.year <= 9999 && text@ == date_text(x) ==> r == Some(x),
{
    chrono::NaiveDate::parse_from_str(text, "%Y-%m-%d").ok().map(
        |x| Date { year: x.year(), month: x.month(), day: x.day() },
    )
}

/// A valid time shown as `%H:%M`.
#[verifier::external_body]
pub(crate) fn time_to_string(t: &Time) -> (r: String)
    requires
        t.wf(),
    ensures
        r@ == time_text(*t),
{
    chrono::NaiveTime::from_hms_opt(t.hour, t.minute, 0).unwrap().format("%H:%M").to_string()
}

/// Reads a time of the `HH:MM` shape as `%H:%M`.
#[verifier::external_body]
fn chrono_parse_clock(text: &str) -> (r: Option<Time>)
    requires
        is_clock_shape(text@),
    ensures
        r is Some <==> clock_in_day(text@),
        r matches Some(t) ==> t.hour == clock_hour(text@) && t.minute == clock_minute(text@),
{
    chrono::NaiveTime::parse_from_str(text, "%H:%M").ok().map(
        |x| Time { hour: x.hour(), minute: x.minute() },
    )
}

/// Reads a date written as `%Y-%m-%d`.
pub fn parse_date(text: &str) -> (r: Option<Date>)
    ensures
        r is None <==> parsed_ymd(text@) is None,
        r matches Some(d) ==> d.wf() && parsed_ymd(text@) == Some(
            (d.year as int, d.month as int, d.day as int),
        ),
        forall|x: Date|
            x.wf() && 0 <= x.year <= 9999 && text@ == date_text(x) ==> r == Some(x),
{
    chrono_parse_ymd(text)
}

/// Reads a time of the `HH:MM` shape.
pub fn parse_clock(text: &str) -> (r: Option<Time>)
    requires
        is_clock_shape(text@),
    ensures
        r is Some <==> clock_in_day(text@),
        r matches Some(t) ==> t.wf() && t.hour == clock_hour(text@) && t.minute == clock_minute(text@),
{
    chrono_parse_clock(text)
}

fn digit_to_char(d: u64) -> (c: char)
    requires
        d < 10,
    ensures
        c == digit_char(d as int),
{
    ((d as u8) + 48u8) as char
}

/// The decimal digits of `n`.
pub fn decimal_chars(n: u64) -> (r: Vec<char>)
    ensures
        r@ == decimal(n as nat),
    decreases n,
{
    if n < 10 {
        let mut v: Vec<char> = Vec::new();
        v.push(digit_to_char(n));
        assert(v@ =~= seq![digit_char(n as int)]);
        v
    } else {
        let mut v = decimal_chars(n / 10);
        v.push(digit_to_char(n % 10));
        v
    }
}

fn pad_zeros(s: Vec<char>, w: usize) -> (r: Vec<char>)
    ensures
        r@ == zero_padded(s@, w as int),
{
    if s.len() >= w {
        return s;
    }
    let mut out: Vec<char> = Vec::new();
    let k = w - s.len();
    while out.len() < k
        invariant
            out@.len() <= k,
            forall|i: int| 0 <= i < out@.len() ==> out@[i] == '0',
        decreases k - out@.len(),
    {
        out.push('0');
    }
    let mut i: usize = 0;
    let ghost zeros = out@;
    while i < s.len()
        invariant
            i <= s@.len(),
            zeros.len() == k,
            out@ == zeros + s@.take(i as int),
        decreases s.len() - i,
    {
        out.push(s[i]);
        assert(s@.take(i + 1) =~= s@.take(i as int).push(s@[i as int]));
        i = i + 1;
    }
    assert(s@.take(s@.len() as int) =~= s@);
    assert(zeros =~= Seq::new(k as nat, |i: int| '0'));
    out
}

/// `format!("{:0w$}", n)`.
pub fn format_padded(n: i64, w: usize) -> (r: String)
    requires
        n > i64::MIN,
        w >= 1,
    ensures
        r@ == padded_int(n as int, w as int),
{
    if n < 0 {
        let digits = pad_zeros(decimal_chars((-n) as u64), w - 1);
        let mut out: Vec<char> = Vec::new();
        out.push('-');
        let mut i: usize = 0;
        while i < digits.len()
            invariant
                i <= digits@.len(),
                out@ == seq!['-'] + digits@.take(i as int),
            decreases digits.len() - i,
        {
            out.push(digits[i]);
            assert(digits@.take(i + 1) =~= digits@.take(i as int).push(digits@[i as int]));
            i = i + 1;
        }
        assert(digits@.take(digits@.len() as int) =~= digits@);
        string_from_chars(out.as_slice())
    } else {
        let digits = pad_zeros(decimal_chars(n as u64), w);
        string_from_chars(digits.as_slice())
    }
}

/// Today's date on the local clock.
#[verifier::external_body]
pub fn today() -> (r: Date)
    ensures
        r.wf(),
{
    let now = chrono::Local::now().date_naive();
    Date { year: now.year(), month: now.month(), day: now.day() }
}

/// The local time of day, to the minute.
#[verifier::external_body]
pub(crate) fn current_minute() -> (r: Time)
    ensures
        r.wf(),
{
    let now = chrono::Local::now().time();
    Time { hour: now.hour(), minute: now.minute() }
}

impl Date {
    /// The date `year-month-day`, if it exists.
    pub fn from_ymd(year: i32, month: u32, day: u32) -> (r: Option<Date>)
        ensures
            r is Some <==> valid_ymd(year as int, month as int, day as int),
            r matches Some(d) ==> d == (Date { year, month, day }),
    {
        chrono_from_ymd(year, month, day)
    }

    /// Whether `self` comes no later than `other`.
    pub fn is_on_or_before(&self, other: &Date) -> (r: bool)
        ensures
            r == (self == other || self.before(*other)),
    {
        self.year < other.year || (self.year == other.year && (self.month < other.month || (
        self.month == other.month && self.day <= other.day)))
    }
}

/// The day `n - weekday_of(n)` is a Monday, the Monday of the week of `n`.
pub proof fn lemma_week_start(n: int)
    ensures
        0 <= weekday_of(n) < 7,
        weekday_of(n - weekday_of(n)) == 0,
        weekday_of(n - weekday_of(n) + 4) == 4,
{
    let w = (n + 3) % 7;
    let q = (n + 3) / 7;
    vstd::arithmetic::div_mod::lemma_fundamental_div_mod(n + 3, 7);
    assert(n - w + 3 == 7 * q);
    vstd::arithmetic::div_mod::lemma_mod_multiples_vanish(q, 0, 7);
    vstd::arithmetic::div_mod::lemma_mod_multiples_vanish(q, 4, 7);
    vstd::arithmetic::div_mod::lemma_small_mod(4, 7);
    vstd::arithmetic::div_mod::lemma_small_mod(0, 7);
}

/// The Monday and the Friday of the week of `anchor`.
pub fn work_week_range(anchor: Date) -> (r: (Date, Date))
    requires
        anchor.wf(),
        day_in_range(anchor.number() - weekday_of(anchor.number())),
        day_in_range(anchor.number() - weekday_of(anchor.number()) + 4),
    ensures
        r.0.wf(),
        r.1.wf(),
        r.0.number() == anchor.number() - weekday_of(anchor.number()),
        r.1.number() == r.0.number() + 4,
        weekday_of(r.0.number()) == 0,
        weekday_of(r.1.number()) == 4,
        r.0.number() <= anchor.number() < r.0.number() + 7,
{
    proof {
        lemma_week_start(anchor.number());
    }
    let back = chrono_weekday(&anchor);
    let start = chrono_add_days(&anchor, -(back as i64)).unwrap();
    let end = chrono_add_days(&start, 4).unwrap();
    (start, end)
}

/// The first and the last day of the month of `anchor`.
pub fn month_range(anchor: Date) -> (r: Result<(Date, Date), crate::error::WrkError>)
    requires
        anchor.wf(),
    ensures
        r is Ok <==> !(anchor.month == 12 && anchor.year == MAX_YEAR),
        r matches Ok((s, e)) ==> s == (Date { year: anchor.year, month: anchor.month, day: 1 })
            && e == (Date {
            year: anchor.year,
            month: anchor.month,
            day: days_in_month(anchor.year as int, anchor.month as int) as u32,
        }),
        r matches Err(e) ==> e == crate::error::WrkError::InvalidMonth,
{
    let start = chrono_from_ymd(anchor.year, anchor.month, 1).unwrap();
    let (next_year, next_month) = if anchor.month == 12 {
        (anchor.year + 1, 1u32)
    } else {
        (anchor.year, anchor.month + 1)
    };
    let next = match chrono_from_ymd(next_year, next_month, 1) {
        Some(d) => d,
        None => {
            return Err(crate::error::WrkError::InvalidMonth);
        },
    };
    let ghost y = anchor.year as int;
    let ghost m = anchor.month as int;
    let ghost last = Date { year: anchor.year, month: anchor.month, day: days_in_month(y, m) as u32 };
    proof {
        lemma_next_month_start(y, m);
        lemma_date_in_range(last);
    }
    let end = chrono_add_days(&next, -1).unwrap();
    proof {
        lemma_date_order(end, last);
    }
    Ok((start, end))
}

/// The first and the last day of the year of `anchor`.
pub fn year_range(anchor: Date) -> (r: Result<(Date, Date), crate::error::WrkError>)
    requires
        anchor.wf(),
    ensures
        r == Ok::<(Date, Date), crate::error::WrkError>(
            (
                Date { year: anchor.year, month: 1, day: 1 },
                Date { year: anchor.year, month: 12, day: 31 },
            ),
        ),
{
    let start = chrono_from_ymd(anchor.year, 1, 1).unwrap();
    let end = chrono_from_ymd(anchor.year, 12, 31).unwrap();
    Ok((start, end))
}

/// Every date from `start` to `end`, in order.
pub fn period_days(start: Date, end: Date) -> (r: Vec<Date>)
    requires
        start.wf(),
        end.wf(),
        start.number() > end.number() || day_in_range(end.number() + 1),
    ensures
        r@.len() == (if start.number() > end.number() {
            0
        } else {
            end.number() - start.number() + 1
        }),
        forall|i: int| #![trigger r@[i]] 0 <= i < r@.len() ==> r@[i].wf() && r@[i].number() == start.number() + i,
{
    let mut out: Vec<Date> = Vec::new();
    let mut current = start;
    proof {
        lemma_date_order(current, end);
    }
    while current.is_on_or_before(&end)
        invariant
            current.wf(),
            end.wf(),
            start.number() > end.number() || day_in_range(end.number() + 1),
            current.number() == start.number() + out@.len(),
            start.number() <= end.number() ==> current.number() <= end.number() + 1,
            start.number() > end.number() ==> out@.len() == 0,
            forall|i: int| #![trigger out@[i]] 0 <= i < out@.len() ==> out@[i].wf() && out@[i].number() == start.number() + i,
        decreases end.number() + 1 - current.number(),
    {
        proof {
            lemma_date_order(current, end);
            lemma_date_in_range(current);
        }
        let ghost before = out@;
        out.push(current);
        assert(forall|i: int| 0 <= i < before.len() ==> out@[i] == before[i]);
        assert(out@[before.len() as int] == current);
        current = chrono_add_days(&current, 1).unwrap();
    }
    proof {
        lemma_date_order(current, end);
    }
    out
}

} // verus!
