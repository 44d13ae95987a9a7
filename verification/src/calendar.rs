//! Points in time as people read them: the Gregorian calendar in UTC.

use crate::order::{comes_before, first_difference_decides, one_text_comes_before_the_other};
use crate::text::{
    decimal, decimals_read_back, digit, fill, numerals_on_one_line, pad_left, push_zero_padded,
    together_on_one_line, value,
};
use vstd::prelude::*;
use vstd::utf8::is_ascii_chars;

verus! {

/// A day of the Gregorian calendar.
pub struct Date {
    pub year: u64,
    pub month: u64,
    pub day: u64,
}

/// Whether `year` has a 29th of February.
pub open spec fn is_leap(year: int) -> bool {
    year % 4 == 0 && (year % 100 != 0 || year % 400 == 0)
}

/// How many days `year` has.
pub open spec fn year_length(year: int) -> int {
    if is_leap(year) {
        366
    } else {
        365
    }
}

/// How many days `month` of `year` has.
pub open spec fn month_length(year: int, month: int) -> int {
    if month == 2 {
        if is_leap(year) {
            29
        } else {
            28
        }
    } else if month == 4 || month == 6 || month == 9 || month == 11 {
        30
    } else {
        31
    }
}

/// How many days lie between 1970-01-01 and the first day of `year`.
pub open spec fn days_before_year(year: int) -> int
    decreases year,
{
    if year <= 1970 {
        0
    } else {
        days_before_year(year - 1) + year_length(year - 1)
    }
}

/// How many days of `year` lie before the first day of `month`.
pub open spec fn days_before_month(year: int, month: int) -> int
    decreases month,
{
    if month <= 1 {
        0
    } else {
        days_before_month(year, month - 1) + month_length(year, month - 1)
    }
}

impl Date {
    /// Whether there is such a day, on or after 1970-01-01.
    pub open spec fn valid(self) -> bool {
        &&& 1970 <= self.year
        &&& 1 <= self.month <= 12
        &&& 1 <= self.day <= month_length(self.year as int, self.month as int)
    }

    /// How many days lie between 1970-01-01 and this day.
    pub open spec fn day_number(self) -> int {
        days_before_year(self.year as int) + days_before_month(
            self.year as int,
            self.month as int,
        ) + self.day - 1
    }
}

/// How many leap years lie before `year`, counted from the year 1.
spec fn leap_years_before(year: int) -> int {
    (year - 1) / 4 - (year - 1) / 100 + (year - 1) / 400
}

proof fn leap_years_step(y: int)
    requires
        y >= 1,
    ensures
        leap_years_before(y + 1) == leap_years_before(y) + if is_leap(y) {
            1int
        } else {
            0int
        },
{
}

#[verifier::spinoff_prover]
proof fn days_before_year_closed(year: int)
    requires
        year >= 1970,
    ensures
        days_before_year(year) == 365 * (year - 1970) + leap_years_before(year) - 477,
    decreases year,
{
    if year > 1970 {
        days_before_year_closed(year - 1);
        leap_years_step(year - 1);
    }
}

proof fn days_before_month_closed(year: int, month: int)
    requires
        1 <= month <= 12,
    ensures
        month >= 3 ==> days_before_month(year, month) == 59 + (if is_leap(year) {
            1int
        } else {
            0int
        }) + (153 * (month - 3) + 2) / 5,
        month == 2 ==> days_before_month(year, month) == 31,
        month == 1 ==> days_before_month(year, month) == 0,
{
    reveal_with_fuel(days_before_month, 13);
}

/// A day of a 400 year cycle that starts on a first of March, by its century, its leap cycle of
/// four years, its year in that and its day in that.
#[verifier::spinoff_prover]
proof fn parts_of_cycle(doe: int) -> (r: (int, int, int, int))
    requires
        0 <= doe < 146097,
    ensures
        ({
            let (c, q, y, d) = r;
            &&& 0 <= c <= 3 && 0 <= q <= 24 && 0 <= y <= 3 && 0 <= d <= 365
            &&& doe == 36524 * c + 1461 * q + 365 * y + d
            &&& d == 365 ==> y == 3 && (q < 24 || c == 3)
        }),
{
    let c = if doe == 146096 {
        3
    } else {
        doe / 36524
    };
    let r = doe - 36524 * c;
    let q = r / 1461;
    let s = r - 1461 * q;
    let y = if s == 1460 {
        3
    } else {
        s / 365
    };
    (c, q, y, s - 365 * y)
}

/// The year of a 400 year cycle that starts on a first of March, and the day in it.
#[verifier::spinoff_prover]
proof fn year_of_cycle(doe: int) -> (r: (int, int))
    requires
        0 <= doe < 146097,
    ensures
        ({
            let (yoe, doy) = r;
            &&& yoe == (doe - doe / 1460 + doe / 36524 - doe / 146096) / 365
            &&& 0 <= yoe < 400 && 0 <= doy <= 365
            &&& doe == 365 * yoe + yoe / 4 - yoe / 100 + doy
            &&& doy == 365 ==> is_leap(yoe + 1)
        }),
{
    let (c, q, y, d) = parts_of_cycle(doe);
    let s = 365 * y + d;
    let over: int = if 24 * c + q + s >= 1460 {
        1
    } else {
        0
    };
    assert(doe == 1460 * (25 * c + q) + 24 * c + q + s);
    assert(doe / 1460 == 25 * c + q + over);
    assert(doe / 36524 - doe / 146096 == c);
    let n = doe - doe / 1460 + doe / 36524 - doe / 146096;
    assert(n == 365 * (100 * c + 4 * q + y) + d - over);
    let yoe = 100 * c + 4 * q + y;
    assert(0 <= d - over < 365);
    assert(n / 365 == yoe);
    assert(yoe / 4 == 25 * c + q);
    assert(yoe / 100 == c);
    (yoe, d)
}

/// A day that is counted from a first of March has the date that is counted from 1970-01-01.
#[verifier::spinoff_prover]
#[verifier::rlimit(40)]
proof fn date_of_march_year(days: int, era: int, yoe: int, doy: int, mp: int)
    requires
        0 <= days,
        0 <= era,
        0 <= yoe < 400,
        0 <= doy <= 365,
        doy == 365 ==> is_leap(yoe + 1),
        days + 719468 == 146097 * era + 365 * yoe + yoe / 4 - yoe / 100 + doy,
        mp == (5 * doy + 2) / 153,
    ensures
        0 <= mp <= 11,
        ({
            let day = doy - (153 * mp + 2) / 5 + 1;
            let month = if mp < 10 {
                mp + 3
            } else {
                mp - 9
            };
            let year = yoe + 400 * era + if mp < 10 {
                0int
            } else {
                1int
            };
            &&& 1970 <= year
            &&& 1 <= month <= 12
            &&& 1 <= day <= month_length(year, month)
            &&& days_before_year(year) + days_before_month(year, month) + day - 1 == days
        }),
{
    let start = yoe + 400 * era;
    let leaps = start / 4 - start / 100 + start / 400;
    assert(start / 4 == 100 * era + yoe / 4);
    assert(start / 100 == 4 * era + yoe / 100);
    assert(start / 400 == era);
    assert(days + 719468 == 365 * start + leaps + doy);
    assert(start >= 1969);
    leap_years_step(start);
    assert(is_leap(start + 1) == is_leap(yoe + 1)) by {
        assert((start + 1) % 4 == (yoe + 1) % 4);
        assert((start + 1) % 100 == (yoe + 1) % 100);
        assert((start + 1) % 400 == (yoe + 1) % 400);
    }
    if mp < 10 {
        assert(start >= 1970);
        days_before_year_closed(start);
        days_before_month_closed(start, mp + 3);
    } else {
        days_before_year_closed(start + 1);
        days_before_month_closed(start + 1, mp - 9);
    }
}

/// The day that lies `days` days after 1970-01-01.
pub fn date_of_day(days: u64) -> (r: Date)
    requires
        days <= u64::MAX - 719_468,
    ensures
        r.valid(),
        r.day_number() == days,
        r == date(days as int),
{
    let z: u64 = days + 719_468;
    let era: u64 = z / 146_097;
    let doe: u64 = z % 146_097;
    proof {
        let _ = year_of_cycle(doe as int);
    }
    let yoe: u64 = (doe - doe / 1460 + doe / 36_524 - doe / 146_096) / 365;
    let doy: u64 = doe - (365 * yoe + yoe / 4 - yoe / 100);
    let mp: u64 = (5 * doy + 2) / 153;
    proof {
        date_of_march_year(days as int, era as int, yoe as int, doy as int, mp as int);
    }
    let day: u64 = doy - (153 * mp + 2) / 5 + 1;
    let r = if mp < 10 {
        Date { year: yoe + era * 400, month: mp + 3, day }
    } else {
        Date { year: yoe + era * 400 + 1, month: mp - 9, day }
    };
    proof {
        date_of_its_day_number(r);
    }
    r
}

/// Whether `a` is the earlier day.
pub open spec fn earlier(a: Date, b: Date) -> bool {
    ||| a.year < b.year
    ||| a.year == b.year && a.month < b.month
    ||| a.year == b.year && a.month == b.month && a.day < b.day
}

proof fn later_years(a: int, b: int)
    requires
        1970 <= a < b,
    ensures
        days_before_year(a) + year_length(a) <= days_before_year(b),
    decreases b,
{
    if a < b - 1 {
        later_years(a, b - 1);
    }
}

proof fn later_months(year: int, a: int, b: int)
    requires
        1 <= a < b <= 13,
    ensures
        days_before_month(year, a) + month_length(year, a) <= days_before_month(year, b),
        days_before_month(year, 13) == year_length(year),
    decreases b,
{
    reveal_with_fuel(days_before_month, 14);
    if a < b - 1 {
        later_months(year, a, b - 1);
    }
}

/// Days are counted in the order of their dates.
pub proof fn days_follow_dates(a: Date, b: Date)
    requires
        a.valid(),
        b.valid(),
    ensures
        earlier(a, b) <==> a.day_number() < b.day_number(),
{
    day_numbers_rise(a, b);
    day_numbers_rise(b, a);
}

proof fn day_numbers_rise(a: Date, b: Date)
    requires
        a.valid(),
        b.valid(),
    ensures
        earlier(a, b) ==> a.day_number() < b.day_number(),
        !earlier(a, b) && !earlier(b, a) ==> a == b,
{
    if a.year < b.year {
        later_years(a.year as int, b.year as int);
        later_months(a.year as int, a.month as int, 13);
        if b.month > 1 {
            later_months(b.year as int, 1, b.month as int);
        }
    } else if a.year == b.year && a.month < b.month {
        later_months(a.year as int, a.month as int, b.month as int);
    }
}

/// No two dates have the same day number.
pub proof fn dates_are_unique(a: Date, b: Date)
    requires
        a.valid(),
        b.valid(),
        a.day_number() == b.day_number(),
    ensures
        a == b,
{
    day_numbers_rise(a, b);
    day_numbers_rise(b, a);
}

/// The date of the day that lies `days` days after 1970-01-01.
pub open spec fn date(days: int) -> Date {
    choose|d: Date| #[trigger] d.valid() && d.day_number() == days
}

/// A date is the date of its day number.
pub proof fn date_of_its_day_number(d: Date)
    requires
        d.valid(),
    ensures
        date(d.day_number()) == d,
{
    dates_are_unique(date(d.day_number()), d);
}

/// Every day has a date.
#[verifier::spinoff_prover]
pub proof fn every_day_has_a_date(days: int)
    requires
        0 <= days <= u64::MAX,
    ensures
        date(days).valid(),
        date(days).day_number() == days,
{
    let z = days + 719_468;
    let era = z / 146_097;
    let (yoe, doy) = year_of_cycle(z % 146_097);
    let mp = (5 * doy + 2) / 153;
    date_of_march_year(days, era, yoe, doy, mp);
    let day = doy - (153 * mp + 2) / 5 + 1;
    let d = if mp < 10 {
        Date { year: (yoe + 400 * era) as u64, month: (mp + 3) as u64, day: day as u64 }
    } else {
        Date { year: (yoe + 400 * era + 1) as u64, month: (mp - 9) as u64, day: day as u64 }
    };
    assert(d.valid() && d.day_number() == days);
}

// ---- texts ----

/// `n` in decimal, with at least two digits.
pub open spec fn two_digits(n: int) -> Seq<char> {
    pad_left(decimal(n as nat), '0', 2)
}

/// The time of day at `secs` seconds after 1970-01-01 00:00:00 UTC, as `HH:MM:SS`.
pub open spec fn clock_text(secs: int) -> Seq<char> {
    two_digits((secs / 3600) % 24) + ":"@ + two_digits((secs / 60) % 60) + ":"@ + two_digits(
        secs % 60,
    )
}

/// A date as `YYYY-MM-DD`.
pub open spec fn date_text(d: Date) -> Seq<char> {
    pad_left(decimal(d.year as nat), '0', 4) + "-"@ + two_digits(d.month as int) + "-"@
        + two_digits(d.day as int)
}

/// The moment at `ms` milliseconds after 1970-01-01 00:00:00 UTC, as `YYYY-MM-DD HH:MM:SS UTC`.
pub open spec fn datetime_text(ms: int) -> Seq<char> {
    date_text(date(ms / 86_400_000)) + " "@ + clock_text(ms / 1000) + " UTC"@
}

fn push_clock(out: &mut String, secs: u64)
    ensures
        final(out)@ == old(out)@ + clock_text(secs as int),
{
    let ghost before = out@;
    push_zero_padded(out, (secs / 3600) % 24, 2);
    out.append(":");
    push_zero_padded(out, (secs / 60) % 60, 2);
    out.append(":");
    push_zero_padded(out, secs % 60, 2);
    assert(out@ =~= before + clock_text(secs as int));
}

/// Unix milliseconds as `YYYY-MM-DD HH:MM:SS UTC`.
pub fn fmt_datetime(ms: u64) -> (r: String)
    ensures
        r@ == datetime_text(ms as int),
{
    let secs: u64 = ms / 1000;
    let d = date_of_day(secs / 86_400);
    let mut out = String::new();
    push_zero_padded(&mut out, d.year, 4);
    out.append("-");
    push_zero_padded(&mut out, d.month, 2);
    out.append("-");
    push_zero_padded(&mut out, d.day, 2);
    out.append(" ");
    push_clock(&mut out, secs);
    out.append(" UTC");
    proof {
        assert(secs / 86_400 == ms / 86_400_000);
        assert(out@ =~= datetime_text(ms as int));
    }
    out
}

/// Unix milliseconds as `HH:MM:SS`, in UTC.
pub fn fmt_time(ms: u64) -> (r: String)
    ensures
        r@ == clock_text(ms as int / 1000),
{
    let mut out = String::new();
    push_clock(&mut out, ms / 1000);
    assert(out@ =~= clock_text(ms as int / 1000));
    out
}

// ---- the order of the texts ----

proof fn two_digits_of(n: int)
    requires
        0 <= n < 100,
    ensures
        two_digits(n) == seq![digit((n / 10) as nat), digit((n % 10) as nat)],
{
    reveal_with_fuel(decimal, 3);
    assert(two_digits(n) =~= seq![digit((n / 10) as nat), digit((n % 10) as nat)]);
}

proof fn four_digits_of(n: int)
    requires
        1970 <= n < 10_000,
    ensures
        pad_left(decimal(n as nat), '0', 4) == seq![
            digit((n / 1000) as nat),
            digit((n / 100 % 10) as nat),
            digit((n / 10 % 10) as nat),
            digit((n % 10) as nat),
        ],
{
    reveal_with_fuel(decimal, 5);
    assert(n / 10 / 10 == n / 100 && n / 100 / 10 == n / 1000);
    assert(pad_left(decimal(n as nat), '0', 4) =~= seq![
        digit((n / 1000) as nat),
        digit((n / 100 % 10) as nat),
        digit((n / 10 % 10) as nat),
        digit((n % 10) as nat),
    ]);
}

/// A day before the year 10000 is of a year of four digits.
proof fn years_of_four_digits(days: int)
    requires
        0 <= days < 2_932_897,
    ensures
        date(days).valid(),
        date(days).day_number() == days,
        date(days).year < 10_000,
{
    every_day_has_a_date(days);
    let end = Date { year: 10_000, month: 1, day: 1 };
    days_before_year_closed(10_000);
    assert(end.day_number() == 2_932_897);
    days_follow_dates(date(days), end);
}

/// `datetime_text`, character by character.
spec fn datetime_chars(d: Date, hour: int, min: int, sec: int) -> Seq<char> {
    seq![
        digit((d.year as int / 1000) as nat),
        digit((d.year as int / 100 % 10) as nat),
        digit((d.year as int / 10 % 10) as nat),
        digit((d.year as int % 10) as nat),
        '-',
        digit((d.month as int / 10) as nat),
        digit((d.month as int % 10) as nat),
        '-',
        digit((d.day as int / 10) as nat),
        digit((d.day as int % 10) as nat),
        ' ',
        digit((hour / 10) as nat),
        digit((hour % 10) as nat),
        ':',
        digit((min / 10) as nat),
        digit((min % 10) as nat),
        ':',
        digit((sec / 10) as nat),
        digit((sec % 10) as nat),
        ' ',
        'U',
        'T',
        'C',
    ]
}

#[verifier::spinoff_prover]
proof fn datetime_text_is(ms: int)
    requires
        0 <= ms < 253_402_300_800_000,
    ensures
        datetime_text(ms) == datetime_chars(
            date(ms / 86_400_000),
            (ms / 1000 / 3600) % 24,
            (ms / 1000 / 60) % 60,
            (ms / 1000) % 60,
        ),
        datetime_text(ms).len() == 23,
        is_ascii_chars(datetime_text(ms)),
{
    let d = date(ms / 86_400_000);
    let secs = ms / 1000;
    years_of_four_digits(ms / 86_400_000);
    four_digits_of(d.year as int);
    two_digits_of(d.month as int);
    two_digits_of(d.day as int);
    two_digits_of((secs / 3600) % 24);
    two_digits_of((secs / 60) % 60);
    two_digits_of(secs % 60);
    reveal_strlit("-");
    reveal_strlit(" ");
    reveal_strlit(":");
    reveal_strlit(" UTC");
    assert(datetime_text(ms) =~= datetime_chars(
        d,
        (secs / 3600) % 24,
        (secs / 60) % 60,
        secs % 60,
    ));
}

proof fn number_of_digits(n: int)
    requires
        0 <= n < 10_000,
    ensures
        n == 1000 * (n / 1000) + 100 * (n / 100 % 10) + 10 * (n / 10 % 10) + n % 10,
{
    assert(n / 10 / 10 == n / 100 && n / 100 / 10 == n / 1000);
}

/// Where the digits of `a` and `b` differ first.
proof fn first_of_four_digits(a: int, b: int) -> (k: int)
    requires
        0 <= a < b < 10_000,
    ensures
        0 <= k < 4,
        k == 0 ==> a / 1000 < b / 1000,
        k > 0 ==> a / 1000 == b / 1000,
        k == 1 ==> a / 100 % 10 < b / 100 % 10,
        k > 1 ==> a / 100 % 10 == b / 100 % 10,
        k == 2 ==> a / 10 % 10 < b / 10 % 10,
        k > 2 ==> a / 10 % 10 == b / 10 % 10,
        k == 3 ==> a % 10 < b % 10,
{
    number_of_digits(a);
    number_of_digits(b);
    if a / 1000 < b / 1000 {
        0
    } else if a / 100 % 10 < b / 100 % 10 {
        1
    } else if a / 10 % 10 < b / 10 % 10 {
        2
    } else {
        3
    }
}

/// Where the digits of `a` and `b` differ first.
proof fn first_of_two_digits(a: int, b: int) -> (k: int)
    requires
        0 <= a < b < 100,
    ensures
        0 <= k < 2,
        k == 0 ==> a / 10 < b / 10,
        k == 1 ==> a / 10 == b / 10 && a % 10 < b % 10,
{
    if a / 10 < b / 10 {
        0
    } else {
        1
    }
}

/// Whether the first time of day is the earlier one.
spec fn earlier_in_day(a: (int, int, int), b: (int, int, int)) -> bool {
    ||| a.0 < b.0
    ||| a.0 == b.0 && a.1 < b.1
    ||| a.0 == b.0 && a.1 == b.1 && a.2 < b.2
}

/// The hour, minute and second at `secs` seconds after 1970-01-01 00:00:00 UTC.
spec fn time_of_day(secs: int) -> (int, int, int) {
    ((secs / 3600) % 24, (secs / 60) % 60, secs % 60)
}

proof fn seconds_of_time(secs: int)
    requires
        0 <= secs,
    ensures
        ({
            let (h, m, s) = time_of_day(secs);
            secs == 86_400 * (secs / 86_400) + 3600 * h + 60 * m + s
        }),
{
    assert(secs / 60 / 60 == secs / 3600 && secs / 3600 / 24 == secs / 86_400);
}

proof fn later_on_the_same_day(a: int, b: int)
    requires
        0 <= a < b,
        a / 86_400 == b / 86_400,
    ensures
        earlier_in_day(time_of_day(a), time_of_day(b)),
{
    seconds_of_time(a);
    seconds_of_time(b);
}

/// Where the texts of two moments of different days differ first.
proof fn first_difference_of_days(x: Date, y: Date, s: (int, int, int), t: (int, int, int)) -> (k:
    int)
    requires
        x.valid(),
        y.valid(),
        x.year < 10_000,
        y.year < 10_000,
        earlier(x, y),
    ensures
        0 <= k < 10,
        ({
            let a = datetime_chars(x, s.0, s.1, s.2);
            let b = datetime_chars(y, t.0, t.1, t.2);
            a[k] < b[k] && forall|i: int| 0 <= i < k ==> a[i] == b[i]
        }),
{
    if x.year < y.year {
        first_of_four_digits(x.year as int, y.year as int)
    } else if x.month < y.month {
        5 + first_of_two_digits(x.month as int, y.month as int)
    } else {
        8 + first_of_two_digits(x.day as int, y.day as int)
    }
}

/// Where the texts of two moments of one day differ first.
proof fn first_difference_of_times(d: Date, s: (int, int, int), t: (int, int, int)) -> (k: int)
    requires
        0 <= s.0 < 100 && 0 <= s.1 < 100 && 0 <= s.2 < 100,
        0 <= t.0 < 100 && 0 <= t.1 < 100 && 0 <= t.2 < 100,
        earlier_in_day(s, t),
    ensures
        0 <= k < 19,
        ({
            let a = datetime_chars(d, s.0, s.1, s.2);
            let b = datetime_chars(d, t.0, t.1, t.2);
            a[k] < b[k] && forall|i: int| 0 <= i < k ==> a[i] == b[i]
        }),
{
    if s.0 < t.0 {
        11 + first_of_two_digits(s.0, t.0)
    } else if s.1 < t.1 {
        14 + first_of_two_digits(s.1, t.1)
    } else {
        17 + first_of_two_digits(s.2, t.2)
    }
}

proof fn earlier_texts_come_before(a: int, b: int)
    requires
        0 <= a < 253_402_300_800_000,
        0 <= b < 253_402_300_800_000,
        a / 1000 < b / 1000,
    ensures
        comes_before(datetime_text(a), datetime_text(b)),
{
    datetime_text_is(a);
    datetime_text_is(b);
    let x = date(a / 86_400_000);
    let y = date(b / 86_400_000);
    years_of_four_digits(a / 86_400_000);
    years_of_four_digits(b / 86_400_000);
    let s = time_of_day(a / 1000);
    let t = time_of_day(b / 1000);
    days_follow_dates(x, y);
    let k = if earlier(x, y) {
        first_difference_of_days(x, y, s, t)
    } else {
        assert(a / 1000 / 86_400 == a / 86_400_000 && b / 1000 / 86_400 == b / 86_400_000);
        later_on_the_same_day(a / 1000, b / 1000);
        first_difference_of_times(x, s, t)
    };
    first_difference_decides(datetime_text(a), datetime_text(b), k);
}

proof fn one_text_for_one_second(a: int, b: int)
    requires
        a / 1000 == b / 1000,
    ensures
        datetime_text(a) == datetime_text(b),
{
    assert(a / 1000 / 86_400 == a / 86_400_000);
    assert(b / 1000 / 86_400 == b / 86_400_000);
}

/// Before the year 10000 the texts of moments have 23 characters, all of them ASCII, and their
/// order is that of the moments, to the second.
#[verifier::spinoff_prover]
#[verifier::rlimit(40)]
pub proof fn texts_follow_moments(a: int, b: int)
    requires
        0 <= a < 253_402_300_800_000,
        0 <= b < 253_402_300_800_000,
    ensures
        datetime_text(a).len() == 23,
        is_ascii_chars(datetime_text(a)),
        comes_before(datetime_text(a), datetime_text(b)) <==> a / 1000 < b / 1000,
        datetime_text(a) == datetime_text(b) <==> a / 1000 == b / 1000,
{
    datetime_text_is(a);
    one_text_comes_before_the_other(datetime_text(a), datetime_text(b));
    if a / 1000 < b / 1000 {
        earlier_texts_come_before(a, b);
    } else if b / 1000 < a / 1000 {
        earlier_texts_come_before(b, a);
    } else {
        one_text_for_one_second(a, b);
    }
}

proof fn two_digits_read_back(n: int)
    requires
        0 <= n < 100,
    ensures
        two_digits(n).len() == 2,
        value(two_digits(n)) == n,
{
    two_digits_of(n);
    reveal_with_fuel(value, 3);
    let s = two_digits(n);
    assert(s.drop_last() =~= seq![s[0]]);
    assert(s.drop_last().drop_last() =~= Seq::<char>::empty());
}

proof fn zeros_add_nothing(zeros: int, digits: Seq<char>)
    requires
        zeros >= 0,
    ensures
        value(fill('0', zeros) + digits) == value(digits),
    decreases digits.len(), zeros,
{
    let s = fill('0', zeros) + digits;
    if digits.len() > 0 {
        assert(s.drop_last() =~= fill('0', zeros) + digits.drop_last());
        zeros_add_nothing(zeros, digits.drop_last());
    } else if zeros > 0 {
        assert(s.drop_last() =~= fill('0', zeros - 1) + digits);
        zeros_add_nothing(zeros - 1, digits);
    } else {
        assert(s =~= digits);
    }
}

/// The time of day reads back, as two digits each for the hour, the minute and the second, with
/// colons between them: together they are the seconds since midnight.
pub proof fn times_of_day_read_back(secs: int)
    requires
        0 <= secs,
    ensures
        ({
            let t = clock_text(secs);
            let hour = value(t.subrange(0, 2));
            let min = value(t.subrange(3, 5));
            let sec = value(t.subrange(6, 8));
            &&& t.len() == 8 && t[2] == ':' && t[5] == ':'
            &&& is_ascii_chars(t)
            &&& 0 <= hour < 24 && 0 <= min < 60 && 0 <= sec < 60
            &&& 3600 * hour + 60 * min + sec == secs % 86_400
        }),
{
    reveal_strlit(":");
    let (h, m, s) = time_of_day(secs);
    two_digits_read_back(h);
    two_digits_read_back(m);
    two_digits_read_back(s);
    two_digits_of(h);
    two_digits_of(m);
    two_digits_of(s);
    seconds_of_time(secs);
    let t = clock_text(secs);
    assert(t.subrange(0, 2) =~= two_digits(h));
    assert(t.subrange(3, 5) =~= two_digits(m));
    assert(t.subrange(6, 8) =~= two_digits(s));
}

/// A date reads back: the year, in four digits or more, then two digits each for the month and the
/// day, with hyphens between them.
#[verifier::spinoff_prover]
pub proof fn dates_read_back(d: Date)
    requires
        d.valid(),
    ensures
        ({
            let t = date_text(d);
            let n = t.len() - 6;
            &&& n >= 4
            &&& d.year < 10_000 ==> n == 4
            &&& d.year >= 10_000 ==> t[0] != '0'
            &&& value(t.take(n)) == d.year
            &&& t[n] == '-' && t[n + 3] == '-'
            &&& value(t.subrange(n + 1, n + 3)) == d.month
            &&& value(t.subrange(n + 4, n + 6)) == d.day
        }),
{
    reveal_strlit("-");
    let t = date_text(d);
    let digits = decimal(d.year as nat);
    let year = pad_left(digits, '0', 4);
    decimals_read_back(d.year as nat);
    two_digits_read_back(d.month as int);
    two_digits_read_back(d.day as int);
    if digits.len() < 4 {
        zeros_add_nothing(4 - digits.len(), digits);
    } else {
        assert(year =~= digits);
    }
    if d.year < 10_000 {
        four_digits_of(d.year as int);
    } else {
        reveal_with_fuel(decimal, 5);
        assert(digits.len() >= 4);
    }
    let n = t.len() - 6;
    assert(n == year.len());
    assert(t.take(n) =~= year);
    assert(t.subrange(n + 1, n + 3) =~= two_digits(d.month as int));
    assert(t.subrange(n + 4, n + 6) =~= two_digits(d.day as int));
}

/// A moment is told by its date, its time of day, and that both are those of UTC.
pub proof fn moments_are_told_by_date_and_time(ms: int)
    requires
        0 <= ms,
    ensures
        ({
            let t = datetime_text(ms);
            let n = t.len() - 13;
            &&& n >= 0
            &&& t.take(n) == date_text(date(ms / 86_400_000))
            &&& t[n] == ' '
            &&& t.subrange(n + 1, n + 9) == clock_text(ms / 1000)
            &&& t.skip(n + 9) == " UTC"@
        }),
{
    reveal_strlit(" ");
    reveal_strlit(" UTC");
    times_of_day_read_back(ms / 1000);
    let t = datetime_text(ms);
    let n = t.len() - 13;
    assert(t.take(n) =~= date_text(date(ms / 86_400_000)));
    assert(t.subrange(n + 1, n + 9) =~= clock_text(ms / 1000));
    assert(t.skip(n + 9) =~= " UTC"@);
}

proof fn leap_years_repeat(year: int)
    ensures
        is_leap(year + 400) == is_leap(year),
        leap_years_before(year + 400) == leap_years_before(year) + 97,
{
    assert((year + 400) % 4 == year % 4);
    assert((year + 400) % 100 == year % 100);
    assert((year + 400) % 400 == year % 400);
    let n = year - 1;
    assert((n + 400) / 4 == n / 4 + 100);
    assert((n + 400) / 100 == n / 100 + 4);
    assert((n + 400) / 400 == n / 400 + 1);
}

/// The calendar repeats every 400 years, which are 146097 days: the same month and day come again.
#[verifier::spinoff_prover]
pub proof fn the_calendar_repeats(days: int)
    requires
        0 <= days,
        days + 146_097 <= u64::MAX,
    ensures
        date(days + 146_097).year == date(days).year + 400,
        date(days + 146_097).month == date(days).month,
        date(days + 146_097).day == date(days).day,
{
    every_day_has_a_date(days);
    let d = date(days);
    let y = d.year as int;
    let m = d.month as int;
    days_before_year_closed(y);
    days_before_year_closed(y + 400);
    days_before_month_closed(y, m);
    days_before_month_closed(y + 400, m);
    leap_years_repeat(y);
    assert(365 * (y - 1970) <= days);
    let e = Date { year: (y + 400) as u64, month: d.month, day: d.day };
    assert(e.valid());
    assert(e.day_number() == days + 146_097);
    date_of_its_day_number(e);
}

/// Days follow each other: the day behind one is the next of its month, or else the first of the
/// next month, or of the next year.
#[verifier::spinoff_prover]
pub proof fn each_day_follows_the_one_before(days: int)
    requires
        0 <= days < u64::MAX,
    ensures
        ({
            let d = date(days);
            let next = date(days + 1);
            ||| next.year == d.year && next.month == d.month && next.day == d.day + 1
            ||| next.year == d.year && next.month == d.month + 1 && next.day == 1
            ||| next.year == d.year + 1 && d.month == 12 && next.month == 1 && next.day == 1
        }),
        date(0) == (Date { year: 1970, month: 1, day: 1 }),
{
    every_day_has_a_date(days);
    every_day_has_a_date(days + 1);
    let d = date(days);
    let next = date(days + 1);
    let y = d.year as int;
    let m = d.month as int;
    days_before_year_closed(y);
    assert(365 * (y - 1970) <= days) by {
        days_before_month_closed(y, m);
    }
    let first = Date { year: 1970, month: 1, day: 1 };
    assert(first.valid() && first.day_number() == 0);
    date_of_its_day_number(first);
    if d.day < month_length(y, m) {
        let e = Date { year: d.year, month: d.month, day: (d.day + 1) as u64 };
        assert(e.valid() && e.day_number() == days + 1);
        dates_are_unique(next, e);
    } else if d.month < 12 {
        let e = Date { year: d.year, month: (d.month + 1) as u64, day: 1 };
        assert(e.valid() && e.day_number() == days + 1);
        dates_are_unique(next, e);
    } else {
        later_months(y, 12, 13);
        assert(days_before_month(y, 13) == days_before_month(y, 12) + month_length(y, 12));
        let e = Date { year: (d.year + 1) as u64, month: 1, day: 1 };
        assert(e.valid() && e.day_number() == days + 1);
        dates_are_unique(next, e);
    }
}

/// Months have 30 or 31 days in turn, with July and August both of 31, but for February: it has a
/// 29th in every fourth year, save for the years that are a number of centuries which is no multiple
/// of four.
pub proof fn months_have_their_lengths(year: int, month: int)
    requires
        1 <= month <= 12,
    ensures
        28 <= month_length(year, month) <= 31,
        month != 2 ==> month_length(year, month) == 30 + (month + month / 8) % 2,
        month_length(year, 2) == 29 <==> year % 4 == 0 && !(exists|k: int|
            year == #[trigger] (100 * k) && k % 4 != 0),
        month_length(year, 2) == 28 || month_length(year, 2) == 29,
{
    if year % 100 == 0 {
        let k = year / 100;
        assert(year == 100 * k);
        assert(year % 400 == 0 <==> k % 4 == 0);
    }
    assert forall|k: int| year == #[trigger] (100 * k) implies year % 100 == 0 && (year % 400 == 0
        <==> k % 4 == 0) by {}
}

pub(crate) proof fn times_on_one_line(secs: int)
    ensures
        !clock_text(secs).contains('\n'),
{
    reveal_strlit(":");
    let (h, m, s) = time_of_day(secs);
    numerals_on_one_line(h as nat, 2);
    numerals_on_one_line(m as nat, 2);
    numerals_on_one_line(s as nat, 2);
    together_on_one_line(two_digits(h), ":"@);
    together_on_one_line(two_digits(h) + ":"@, two_digits(m));
    together_on_one_line(two_digits(h) + ":"@ + two_digits(m), ":"@);
    together_on_one_line(two_digits(h) + ":"@ + two_digits(m) + ":"@, two_digits(s));
}

pub(crate) proof fn moments_on_one_line(ms: int)
    ensures
        !datetime_text(ms).contains('\n'),
{
    reveal_strlit("-");
    reveal_strlit(" ");
    reveal_strlit(" UTC");
    let d = date(ms / 86_400_000);
    let year = pad_left(decimal(d.year as nat), '0', 4);
    let month = two_digits(d.month as int);
    numerals_on_one_line(d.year as nat, 4);
    numerals_on_one_line(d.month as nat, 2);
    numerals_on_one_line(d.day as nat, 2);
    times_on_one_line(ms / 1000);
    together_on_one_line(year, "-"@);
    together_on_one_line(year + "-"@, month);
    together_on_one_line(year + "-"@ + month, "-"@);
    together_on_one_line(year + "-"@ + month + "-"@, two_digits(d.day as int));
    together_on_one_line(date_text(d), " "@);
    together_on_one_line(date_text(d) + " "@, clock_text(ms / 1000));
    together_on_one_line(date_text(d) + " "@ + clock_text(ms / 1000), " UTC"@);
}

} // verus!
