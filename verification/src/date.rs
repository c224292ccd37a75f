//! Calendar arithmetic on plain values.
//!
//! A point in time is a count of seconds since 1970-01-01 00:00:00; a
//! calendar day is a count of days since 1970-01-01. The supported range is
//! 1970-01-01 through 9999-12-31, which keeps every date four digits wide.
//! Conversions, weekday computation, and the `YYYY-MM-DD` text form all live
//! here.

use vstd::prelude::*;
use vstd::string::StrSliceExecFns;
use vstd::string::StringExecFns;

verus! {

/// Seconds in one calendar day.
pub const SECONDS_PER_DAY: i64 = 86400;

/// 9999-12-31 as days since 1970-01-01.
pub const MAX_DAY_NUMBER: i64 = 2932896;

/// 9999-12-31 23:59:59 as seconds since the epoch.
pub const MAX_TIMESTAMP: i64 = 253402300799;

/// The Gregorian leap-year rule.
pub open spec fn is_leap_year(y: int) -> bool {
    y % 4 == 0 && (y % 100 != 0 || y % 400 == 0)
}

/// Days in year `y`.
pub open spec fn year_length(y: int) -> int {
    if is_leap_year(y) {
        366
    } else {
        365
    }
}

/// Days in month `m` of year `y`, for `1 <= m <= 12`.
pub open spec fn month_length(y: int, m: int) -> int {
    if m == 2 {
        if is_leap_year(y) {
            29
        } else {
            28
        }
    } else if m == 4 || m == 6 || m == 9 || m == 11 {
        30
    } else {
        31
    }
}

/// Days from 1970-01-01 up to the first day of year `y`.
pub open spec fn days_before_year(y: int) -> int
    decreases y,
{
    if y <= 1970 {
        0
    } else {
        days_before_year(y - 1) + year_length(y - 1)
    }
}

/// Days from the first of January of year `y` up to the first day of month `m`.
pub open spec fn days_before_month(y: int, m: int) -> int
    decreases m,
{
    if m <= 1 {
        0
    } else {
        days_before_month(y, m - 1) + month_length(y, m - 1)
    }
}

/// The day number (days since 1970-01-01) of the calendar date `y-m-d`.
pub open spec fn day_number_of(y: int, m: int, d: int) -> int {
    days_before_year(y) + days_before_month(y, m) + (d - 1)
}

/// A calendar date the library can represent.
pub open spec fn valid_ymd(y: int, m: int, d: int) -> bool {
    1970 <= y <= 9999 && 1 <= m <= 12 && 1 <= d <= month_length(y, m)
}

/// A calendar date, held as plain year / month / day numbers.
#[derive(Debug, Clone, Copy, PartialEq, Eq, Structural)]
pub struct Date {
    pub year: i64,
    pub month: i64,
    pub day: i64,
}

impl Date {
    /// The date lies in the supported range.
    pub open spec fn wf(self) -> bool {
        valid_ymd(self.year as int, self.month as int, self.day as int)
    }

    /// Days since 1970-01-01.
    pub open spec fn num(self) -> int {
        day_number_of(self.year as int, self.month as int, self.day as int)
    }
}

/// `days_before_year` grows with the year.
pub proof fn lemma_days_before_year_monotone(y1: int, y2: int)
    requires
        y1 <= y2,
    ensures
        days_before_year(y1) <= days_before_year(y2),
    decreases y2 - y1,
{
    if y1 < y2 {
        lemma_days_before_year_monotone(y1, y2 - 1);
    }
}

/// Stepping a floor division: the quotient grows exactly at multiples.
proof fn lemma_div_step(n: int, d: int)
    requires
        d > 0,
    ensures
        n / d - (n - 1) / d == if n % d == 0 {
            1int
        } else {
            0int
        },
{
    vstd::arithmetic::div_mod::lemma_fundamental_div_mod(n, d);
    let q = n / d;
    let r = n % d;
    assert(d * q == q * d) by (nonlinear_arith);
    if r == 0 {
        assert((q - 1) * d + (d - 1) == q * d - 1) by (nonlinear_arith);
        assert(n - 1 == (q - 1) * d + (d - 1));
        vstd::arithmetic::div_mod::lemma_fundamental_div_mod_converse(n - 1, d, q - 1, d - 1);
    } else {
        assert(n - 1 == q * d + (r - 1));
        vstd::arithmetic::div_mod::lemma_fundamental_div_mod_converse(n - 1, d, q, r - 1);
    }
}

/// Divisibility by 400 implies divisibility by 100, and by 100 implies by 4.
proof fn lemma_mod_chain(n: int)
    ensures
        n % 400 == 0 ==> n % 100 == 0,
        n % 100 == 0 ==> n % 4 == 0,
{
    if n % 400 == 0 {
        vstd::arithmetic::div_mod::lemma_fundamental_div_mod(n, 400);
        assert((4 * (n / 400)) * 100 + 0 == 400 * (n / 400)) by (nonlinear_arith);
        vstd::arithmetic::div_mod::lemma_fundamental_div_mod_converse(n, 100, 4 * (n / 400), 0);
    }
    if n % 100 == 0 {
        vstd::arithmetic::div_mod::lemma_fundamental_div_mod(n, 100);
        assert((25 * (n / 100)) * 4 + 0 == 100 * (n / 100)) by (nonlinear_arith);
        vstd::arithmetic::div_mod::lemma_fundamental_div_mod_converse(n, 4, 25 * (n / 100), 0);
    }
}

/// Closed form of `days_before_year` over the supported range; 477 is the
/// number of leap years up to and including 1969.
pub proof fn lemma_days_before_year_closed(y: int)
    requires
        y >= 1970,
    ensures
        days_before_year(y) == 365 * (y - 1970) + ((y - 1) / 4 - (y - 1) / 100 + (y - 1) / 400)
            - 477,
    decreases y,
{
    if y == 1970 {
        assert(1969int / 4 == 492 && 1969int / 100 == 19 && 1969int / 400 == 4);
    } else {
        lemma_days_before_year_closed(y - 1);
        lemma_div_step(y - 1, 4);
        lemma_div_step(y - 1, 100);
        lemma_div_step(y - 1, 400);
        lemma_mod_chain(y - 1);
    }
}

/// Total days of the supported range: 1970 through 9999.
pub proof fn lemma_days_of_range()
    ensures
        days_before_year(10000) == 2932897,
{
    lemma_days_before_year_closed(10000);
    assert(9999int / 4 == 2499 && 9999int / 100 == 99 && 9999int / 400 == 24);
}

/// The months of a year sum to the year's length.
pub proof fn lemma_months_fill_year(y: int)
    ensures
        days_before_month(y, 13) == year_length(y),
{
    reveal_with_fuel(days_before_month, 13);
}

/// `days_before_month` grows with the month.
pub proof fn lemma_days_before_month_monotone(y: int, m1: int, m2: int)
    requires
        m1 <= m2,
    ensures
        days_before_month(y, m1) <= days_before_month(y, m2),
    decreases m2 - m1,
{
    if m1 < m2 {
        lemma_days_before_month_monotone(y, m1, m2 - 1);
    }
}

/// Every valid date has a day number within the supported range.
pub proof fn lemma_day_number_bounds(y: int, m: int, d: int)
    requires
        valid_ymd(y, m, d),
    ensures
        0 <= day_number_of(y, m, d) <= MAX_DAY_NUMBER,
{
    lemma_days_before_year_monotone(1970, y);
    lemma_days_before_month_monotone(y, 1, m);
    lemma_months_fill_year(y);
    lemma_days_before_month_monotone(y, m + 1, 13);
    assert(days_before_month(y, m + 1) == days_before_month(y, m) + month_length(y, m));
    assert(days_before_year(y + 1) == days_before_year(y) + year_length(y));
    lemma_days_before_year_monotone(y + 1, 10000);
    lemma_days_of_range();
}

/// Leap-year test.
pub fn leap_year(y: i64) -> (r: bool)
    requires
        0 <= y,
    ensures
        r == is_leap_year(y as int),
{
    y % 4 == 0 && (y % 100 != 0 || y % 400 == 0)
}

/// Length of year `y` in days.
pub fn year_length_of(y: i64) -> (r: i64)
    requires
        0 <= y,
    ensures
        r == year_length(y as int),
{
    if leap_year(y) {
        366
    } else {
        365
    }
}

/// Length of month `m` of year `y` in days.
pub fn month_length_of(y: i64, m: i64) -> (r: i64)
    requires
        0 <= y,
        1 <= m <= 12,
    ensures
        r == month_length(y as int, m as int),
{
    if m == 2 {
        if leap_year(y) {
            29
        } else {
            28
        }
    } else if m == 4 || m == 6 || m == 9 || m == 11 {
        30
    } else {
        31
    }
}

/// The day number of a valid date.
pub fn date_to_day_number(dt: Date) -> (n: i64)
    requires
        dt.wf(),
    ensures
        n == dt.num(),
        0 <= n <= MAX_DAY_NUMBER,
{
    proof {
        lemma_day_number_bounds(dt.year as int, dt.month as int, dt.day as int);
    }
    let mut acc: i64 = 0;
    let mut y: i64 = 1970;
    while y < dt.year
        invariant
            dt.wf(),
            1970 <= y <= dt.year,
            acc == days_before_year(y as int),
            0 <= acc <= 2932897,
        decreases dt.year - y,
    {
        proof {
            lemma_days_before_year_monotone(y as int + 1, 10000);
            lemma_days_of_range();
        }
        acc = acc + year_length_of(y);
        y = y + 1;
    }
    let mut m: i64 = 1;
    while m < dt.month
        invariant
            dt.wf(),
            1 <= m <= dt.month,
            acc == days_before_year(dt.year as int) + days_before_month(dt.year as int, m as int),
            0 <= acc <= 2932897 + 366,
        decreases dt.month - m,
    {
        proof {
            lemma_days_before_year_monotone(dt.year as int, 10000);
            lemma_days_of_range();
            lemma_days_before_month_monotone(dt.year as int, m as int + 1, 13);
            lemma_months_fill_year(dt.year as int);
        }
        acc = acc + month_length_of(dt.year, m);
        m = m + 1;
    }
    acc + (dt.day - 1)
}

/// The valid date with the given day number.
pub fn day_number_to_date(n: i64) -> (dt: Date)
    requires
        0 <= n <= MAX_DAY_NUMBER,
    ensures
        dt.wf(),
        dt.num() == n,
{
    let mut y: i64 = 1970;
    let mut rem: i64 = n;
    let mut yl: i64 = year_length_of(y);
    while rem >= yl
        invariant
            1970 <= y <= 9999,
            days_before_year(y as int) + rem == n,
            0 <= rem,
            n <= MAX_DAY_NUMBER,
            yl == year_length(y as int),
        decreases rem,
    {
        rem = rem - yl;
        y = y + 1;
        proof {
            if y as int > 9999 {
                lemma_days_before_year_monotone(10000, y as int);
                lemma_days_of_range();
            }
        }
        yl = year_length_of(y);
    }
    let ghost rem_year: int = rem as int;
    let mut m: i64 = 1;
    let mut ml: i64 = month_length_of(y, 1);
    while rem >= ml
        invariant
            1970 <= y <= 9999,
            1 <= m <= 12,
            days_before_year(y as int) + days_before_month(y as int, m as int) + rem == n,
            days_before_month(y as int, m as int) + rem == rem_year,
            rem_year < year_length(y as int),
            0 <= rem,
            ml == month_length(y as int, m as int),
        decreases rem,
    {
        rem = rem - ml;
        m = m + 1;
        proof {
            if m as int > 12 {
                lemma_months_fill_year(y as int);
            }
        }
        ml = month_length_of(y, m);
    }
    Date { year: y, month: m, day: rem + 1 }
}

/// Day of week of a day number, with 0 for Sunday (1970-01-01 was a Thursday).
pub open spec fn weekday_of(n: int) -> int {
    (n + 4) % 7
}

/// Day of week of a day number, 0 = Sunday .. 6 = Saturday.
pub fn weekday_of_day(n: i64) -> (w: i64)
    requires
        0 <= n <= MAX_DAY_NUMBER,
    ensures
        w == weekday_of(n as int),
        0 <= w <= 6,
{
    (n + 4) % 7
}

/// The short English name of weekday `w` (0 = Sunday).
pub open spec fn weekday_name(w: int) -> Seq<char> {
    if w == 0 {
        seq!['S', 'u', 'n']
    } else if w == 1 {
        seq!['M', 'o', 'n']
    } else if w == 2 {
        seq!['T', 'u', 'e']
    } else if w == 3 {
        seq!['W', 'e', 'd']
    } else if w == 4 {
        seq!['T', 'h', 'u']
    } else if w == 5 {
        seq!['F', 'r', 'i']
    } else {
        seq!['S', 'a', 't']
    }
}

/// The short weekday name as a string.
pub fn weekday_name_of(w: i64) -> (s: String)
    requires
        0 <= w <= 6,
    ensures
        s@ == weekday_name(w as int),
{
    proof {
        reveal_strlit("Sun");
        reveal_strlit("Mon");
        reveal_strlit("Tue");
        reveal_strlit("Wed");
        reveal_strlit("Thu");
        reveal_strlit("Fri");
        reveal_strlit("Sat");
    }
    let r: &str = if w == 0 {
        "Sun"
    } else if w == 1 {
        "Mon"
    } else if w == 2 {
        "Tue"
    } else if w == 3 {
        "Wed"
    } else if w == 4 {
        "Thu"
    } else if w == 5 {
        "Fri"
    } else {
        "Sat"
    };
    assert(r@ =~= weekday_name(w as int));
    String::from_str(r)
}

/// The character for decimal digit `d`.
pub open spec fn digit_char(d: int) -> char {
    if d == 0 {
        '0'
    } else if d == 1 {
        '1'
    } else if d == 2 {
        '2'
    } else if d == 3 {
        '3'
    } else if d == 4 {
        '4'
    } else if d == 5 {
        '5'
    } else if d == 6 {
        '6'
    } else if d == 7 {
        '7'
    } else if d == 8 {
        '8'
    } else {
        '9'
    }
}

/// `n` as exactly two digits, for `0 <= n <= 99`.
pub open spec fn two_digits(n: int) -> Seq<char> {
    seq![digit_char(n / 10), digit_char(n % 10)]
}

/// `n` as exactly four digits, for `0 <= n <= 9999`.
pub open spec fn four_digits(n: int) -> Seq<char> {
    seq![
        digit_char(n / 1000),
        digit_char((n / 100) % 10),
        digit_char((n / 10) % 10),
        digit_char(n % 10),
    ]
}

/// The `YYYY-MM-DD` text of a date.
pub open spec fn date_string(y: int, m: int, d: int) -> Seq<char> {
    four_digits(y) + seq!['-'] + two_digits(m) + seq!['-'] + two_digits(d)
}

/// One decimal digit as a string slice.
pub(crate) fn digit_str(d: i64) -> (s: &'static str)
    requires
        0 <= d <= 9,
    ensures
        s@ == seq![digit_char(d as int)],
{
    proof {
        reveal_strlit("0");
        reveal_strlit("1");
        reveal_strlit("2");
        reveal_strlit("3");
        reveal_strlit("4");
        reveal_strlit("5");
        reveal_strlit("6");
        reveal_strlit("7");
        reveal_strlit("8");
        reveal_strlit("9");
    }
    let r: &str = if d == 0 {
        "0"
    } else if d == 1 {
        "1"
    } else if d == 2 {
        "2"
    } else if d == 3 {
        "3"
    } else if d == 4 {
        "4"
    } else if d == 5 {
        "5"
    } else if d == 6 {
        "6"
    } else if d == 7 {
        "7"
    } else if d == 8 {
        "8"
    } else {
        "9"
    };
    assert(r@ =~= seq![digit_char(d as int)]);
    r
}

/// Appends `n` as two digits.
fn push_two_digits(s: &mut String, n: i64)
    requires
        0 <= n <= 99,
    ensures
        final(s)@ == old(s)@ + two_digits(n as int),
{
    s.append(digit_str(n / 10));
    s.append(digit_str(n % 10));
    assert(s@ =~= old(s)@ + two_digits(n as int));
}

/// Appends `n` as four digits.
fn push_four_digits(s: &mut String, n: i64)
    requires
        0 <= n <= 9999,
    ensures
        final(s)@ == old(s)@ + four_digits(n as int),
{
    s.append(digit_str(n / 1000));
    s.append(digit_str((n / 100) % 10));
    s.append(digit_str((n / 10) % 10));
    s.append(digit_str(n % 10));
    assert(s@ =~= old(s)@ + four_digits(n as int));
}

/// A date as `YYYY-MM-DD`.
pub fn format_date(dt: Date) -> (s: String)
    requires
        dt.wf(),
    ensures
        s@ == date_string(dt.year as int, dt.month as int, dt.day as int),
{
    proof {
        reveal_strlit("-");
    }
    let mut s = String::new();
    push_four_digits(&mut s, dt.year);
    s.append("-");
    push_two_digits(&mut s, dt.month);
    s.append("-");
    push_two_digits(&mut s, dt.day);
    assert(s@ =~= date_string(dt.year as int, dt.month as int, dt.day as int));
    s
}

/// The wall-clock time of day of a timestamp as a 12-hour clock string,
/// such as `3:45 pm` or `12:05 am`.
pub open spec fn time12_string(ts: int) -> Seq<char> {
    let h24 = (ts / 3600) % 24;
    let mi = (ts / 60) % 60;
    let h12 = if h24 % 12 == 0 {
        12
    } else {
        h24 % 12
    };
    let digits = if h12 >= 10 {
        two_digits(h12)
    } else {
        seq![digit_char(h12)]
    };
    let suffix = if h24 < 12 {
        seq!['a', 'm']
    } else {
        seq!['p', 'm']
    };
    digits + seq![':'] + two_digits(mi) + seq![' '] + suffix
}

/// A timestamp's time of day on a 12-hour clock.
pub fn format_time12(ts: i64) -> (s: String)
    requires
        0 <= ts <= MAX_TIMESTAMP,
    ensures
        s@ == time12_string(ts as int),
{
    proof {
        reveal_strlit(":");
        reveal_strlit(" ");
        reveal_strlit("am");
        reveal_strlit("pm");
    }
    let h24: i64 = (ts / 3600) % 24;
    let mi: i64 = (ts / 60) % 60;
    let h12: i64 = if h24 % 12 == 0 {
        12
    } else {
        h24 % 12
    };
    let mut s = String::new();
    if h12 >= 10 {
        push_two_digits(&mut s, h12);
    } else {
        s.append(digit_str(h12));
    }
    s.append(":");
    push_two_digits(&mut s, mi);
    s.append(" ");
    if h24 < 12 {
        s.append("am");
        assert(("am")@ =~= seq!['a', 'm']);
    } else {
        s.append("pm");
        assert(("pm")@ =~= seq!['p', 'm']);
    }
    assert(s@ =~= time12_string(ts as int));
    s
}

/// A timestamp as `YYYY-MM-DD HH:MM:SS`.
pub open spec fn datetime_string(ts: int) -> Seq<char> {
    let dn = ts / (SECONDS_PER_DAY as int);
    let rest = ts % (SECONDS_PER_DAY as int);
    let h24 = rest / 3600;
    let mi = (rest / 60) % 60;
    let sec = rest % 60;
    day_date_string(dn) + seq![' '] + two_digits(h24) + seq![':'] + two_digits(mi) + seq![':']
        + two_digits(sec)
}

/// The `YYYY-MM-DD` text of a day number.
pub open spec fn day_date_string(n: int) -> Seq<char> {
    date_string(
        spec_date_of_day(n).year as int,
        spec_date_of_day(n).month as int,
        spec_date_of_day(n).day as int,
    )
}

/// The valid date with day number `n`, for `0 <= n <= MAX_DAY_NUMBER`.
pub open spec fn spec_date_of_day(n: int) -> Date {
    choose|dt: Date| dt.wf() && dt.num() == n
}

/// Converting a day number yields exactly `spec_date_of_day`, because day
/// numbers determine valid dates uniquely.
pub proof fn lemma_date_of_day_unique(a: Date, b: Date)
    requires
        a.wf(),
        b.wf(),
        a.num() == b.num(),
    ensures
        a == b,
{
    if a.year != b.year {
        if a.year < b.year {
            lemma_ymd_lt(a, b);
        } else {
            lemma_ymd_lt(b, a);
        }
    } else if a.month != b.month {
        if a.month < b.month {
            lemma_ymd_lt(a, b);
        } else {
            lemma_ymd_lt(b, a);
        }
    } else {
        assert(a.day == b.day);
        assert(a == b);
    }
}

/// A strictly earlier valid date has a strictly smaller day number.
proof fn lemma_ymd_lt(a: Date, b: Date)
    requires
        a.wf(),
        b.wf(),
        a.year < b.year || (a.year == b.year && a.month < b.month) || (a.year == b.year
            && a.month == b.month && a.day < b.day),
    ensures
        a.num() < b.num(),
{
    if a.year < b.year {
        lemma_days_before_month_monotone(a.year as int, a.month as int + 1, 13);
        lemma_months_fill_year(a.year as int);
        assert(days_before_year(a.year as int + 1) == days_before_year(a.year as int)
            + year_length(a.year as int));
        lemma_days_before_year_monotone(a.year as int + 1, b.year as int);
        lemma_days_before_month_monotone(b.year as int, 1, b.month as int);
    } else if a.month < b.month {
        lemma_days_before_month_monotone(a.year as int, a.month as int + 1, b.month as int);
    }
}

/// A day number as `YYYY-MM-DD`.
pub fn format_day_number(n: i64) -> (s: String)
    requires
        0 <= n <= MAX_DAY_NUMBER,
    ensures
        s@ == day_date_string(n as int),
{
    let dt = day_number_to_date(n);
    proof {
        lemma_date_of_day_unique(dt, spec_date_of_day(n as int));
    }
    format_date(dt)
}

/// A timestamp as `YYYY-MM-DD HH:MM:SS`.
pub fn format_datetime(ts: i64) -> (s: String)
    requires
        0 <= ts <= MAX_TIMESTAMP,
    ensures
        s@ == datetime_string(ts as int),
{
    proof {
        reveal_strlit(" ");
        reveal_strlit(":");
    }
    let dn: i64 = ts / SECONDS_PER_DAY;
    let rest: i64 = ts % SECONDS_PER_DAY;
    assert(0 <= dn <= MAX_DAY_NUMBER && 0 <= rest < 86400);
    let mut s = format_day_number(dn);
    s.append(" ");
    push_two_digits(&mut s, rest / 3600);
    s.append(":");
    push_two_digits(&mut s, (rest / 60) % 60);
    s.append(":");
    push_two_digits(&mut s, rest % 60);
    assert(s@ =~= datetime_string(ts as int));
    s
}

/// The numeric value of a decimal digit character, `-1` for anything else.
pub open spec fn digit_val(c: char) -> int {
    if c == '0' {
        0
    } else if c == '1' {
        1
    } else if c == '2' {
        2
    } else if c == '3' {
        3
    } else if c == '4' {
        4
    } else if c == '5' {
        5
    } else if c == '6' {
        6
    } else if c == '7' {
        7
    } else if c == '8' {
        8
    } else if c == '9' {
        9
    } else {
        -1
    }
}

/// The text has the shape `YYYY-MM-DD`.
pub open spec fn date_text_shaped(s: Seq<char>) -> bool {
    s.len() == 10 && s[4] == '-' && s[7] == '-' && digit_val(s[0]) >= 0 && digit_val(s[1]) >= 0
        && digit_val(s[2]) >= 0 && digit_val(s[3]) >= 0 && digit_val(s[5]) >= 0 && digit_val(s[6])
        >= 0 && digit_val(s[8]) >= 0 && digit_val(s[9]) >= 0
}

/// The year, month and day fields read from a `YYYY-MM-DD` text.
pub open spec fn date_text_fields(s: Seq<char>) -> (int, int, int) {
    (
        digit_val(s[0]) * 1000 + digit_val(s[1]) * 100 + digit_val(s[2]) * 10 + digit_val(s[3]),
        digit_val(s[5]) * 10 + digit_val(s[6]),
        digit_val(s[8]) * 10 + digit_val(s[9]),
    )
}

/// What parsing a `YYYY-MM-DD` text yields: the date, if the text is shaped
/// correctly and names a valid date of the supported range.
pub open spec fn spec_parse_date(s: Seq<char>) -> Option<Date> {
    if date_text_shaped(s) && valid_ymd(
        date_text_fields(s).0,
        date_text_fields(s).1,
        date_text_fields(s).2,
    ) {
        Some(
            Date {
                year: date_text_fields(s).0 as i64,
                month: date_text_fields(s).1 as i64,
                day: date_text_fields(s).2 as i64,
            },
        )
    } else {
        None
    }
}

/// The numeric value of a digit character.
fn digit_val_of(c: char) -> (r: i64)
    ensures
        r == digit_val(c),
{
    if c == '0' {
        0
    } else if c == '1' {
        1
    } else if c == '2' {
        2
    } else if c == '3' {
        3
    } else if c == '4' {
        4
    } else if c == '5' {
        5
    } else if c == '6' {
        6
    } else if c == '7' {
        7
    } else if c == '8' {
        8
    } else if c == '9' {
        9
    } else {
        -1
    }
}

/// Parses a `YYYY-MM-DD` text into a date of the supported range.
pub fn parse_date(s: &str) -> (r: Option<Date>)
    ensures
        r == spec_parse_date(s@),
{
    if s.unicode_len() != 10 {
        return None;
    }
    let c4 = s.get_char(4);
    let c7 = s.get_char(7);
    if c4 != '-' || c7 != '-' {
        return None;
    }
    let y3 = digit_val_of(s.get_char(0));
    let y2 = digit_val_of(s.get_char(1));
    let y1 = digit_val_of(s.get_char(2));
    let y0 = digit_val_of(s.get_char(3));
    let m1 = digit_val_of(s.get_char(5));
    let m0 = digit_val_of(s.get_char(6));
    let d1 = digit_val_of(s.get_char(8));
    let d0 = digit_val_of(s.get_char(9));
    if y3 < 0 || y2 < 0 || y1 < 0 || y0 < 0 || m1 < 0 || m0 < 0 || d1 < 0 || d0 < 0 {
        return None;
    }
    let y: i64 = y3 * 1000 + y2 * 100 + y1 * 10 + y0;
    let m: i64 = m1 * 10 + m0;
    let d: i64 = d1 * 10 + d0;
    if y < 1970 || m < 1 || m > 12 || d < 1 || d > month_length_of(y, m) {
        return None;
    }
    Some(Date { year: y, month: m, day: d })
}

/// The text has the shape `YYYY-MM`.
pub open spec fn month_text_shaped(s: Seq<char>) -> bool {
    s.len() == 7 && s[4] == '-' && digit_val(s[0]) >= 0 && digit_val(s[1]) >= 0 && digit_val(s[2])
        >= 0 && digit_val(s[3]) >= 0 && digit_val(s[5]) >= 0 && digit_val(s[6]) >= 0
}

/// What parsing a `YYYY-MM` text yields: the first day of that month, if the
/// text is shaped correctly and names a month of the supported range.
pub open spec fn spec_parse_month(s: Seq<char>) -> Option<Date> {
    if month_text_shaped(s) {
        let y = digit_val(s[0]) * 1000 + digit_val(s[1]) * 100 + digit_val(s[2]) * 10 + digit_val(
            s[3],
        );
        let m = digit_val(s[5]) * 10 + digit_val(s[6]);
        if 1970 <= y && 1 <= m <= 12 {
            Some(Date { year: y as i64, month: m as i64, day: 1 })
        } else {
            None
        }
    } else {
        None
    }
}

/// Parses a `YYYY-MM` text into the first day of that month.
pub fn parse_month(s: &str) -> (r: Option<Date>)
    ensures
        r == spec_parse_month(s@),
        r matches Some(d) ==> d.wf() && d.day == 1,
{
    if s.unicode_len() != 7 {
        return None;
    }
    if s.get_char(4) != '-' {
        return None;
    }
    let y3 = digit_val_of(s.get_char(0));
    let y2 = digit_val_of(s.get_char(1));
    let y1 = digit_val_of(s.get_char(2));
    let y0 = digit_val_of(s.get_char(3));
    let m1 = digit_val_of(s.get_char(5));
    let m0 = digit_val_of(s.get_char(6));
    if y3 < 0 || y2 < 0 || y1 < 0 || y0 < 0 || m1 < 0 || m0 < 0 {
        return None;
    }
    let y: i64 = y3 * 1000 + y2 * 100 + y1 * 10 + y0;
    let m: i64 = m1 * 10 + m0;
    if y < 1970 || m < 1 || m > 12 {
        return None;
    }
    Some(Date { year: y, month: m, day: 1 })
}

} // verus!
