//! Calendar dates and the date format of HTTP.

use vstd::prelude::*;

use crate::numeral;
use crate::text;

verus! {

/// Leap years of the Gregorian calendar.
pub open spec fn is_leap(y: int) -> bool {
    y % 4 == 0 && (y % 100 != 0 || y % 400 == 0)
}

pub open spec fn year_length(y: int) -> int {
    if is_leap(y) {
        366
    } else {
        365
    }
}

pub open spec fn month_length(y: int, m: int) -> int {
    if m == 2 {
        if is_leap(y) {
            29
        } else {
            28
        }
    } else if m == 4 || m == 6 || m == 9 || m == 11 {
        30
    } else {
        31
    }
}

/// The days from the first of January 1970 to that of the year `y`.
pub open spec fn days_before_year(y: int) -> int
    decreases y - 1970,
{
    if y <= 1970 {
        0
    } else {
        days_before_year(y - 1) + year_length(y - 1)
    }
}

/// The days from the first of January to the first of the month `m`.
pub open spec fn days_before_month(y: int, m: int) -> int
    decreases m,
{
    if m <= 1 {
        0
    } else {
        days_before_month(y, m - 1) + month_length(y, m - 1)
    }
}

/// A day of the Gregorian calendar.
pub struct Date {
    pub year: int,
    pub month: int,
    pub day: int,
}

impl Date {
    /// The date exists, and is not before 1970.
    pub open spec fn valid(self) -> bool {
        &&& 1970 <= self.year
        &&& 1 <= self.month <= 12
        &&& 1 <= self.day <= month_length(self.year, self.month)
    }

    /// The days from the first of January 1970 to this one.
    pub open spec fn day_number(self) -> int {
        days_before_year(self.year) + days_before_month(self.year, self.month) + self.day - 1
    }
}

/// The date of the day with this number.
pub open spec fn civil_date(n: int) -> Date {
    choose|d: Date| d.valid() && #[trigger] d.day_number() == n
}

/// The leap years from the year 1 to the year `y`.
spec fn leap_years(y: int) -> int {
    y / 4 - y / 100 + y / 400
}

proof fn lemma_leap_years_step(y: int)
    requires
        y >= 1,
    ensures
        leap_years(y) == leap_years(y - 1) + if is_leap(y) {
            1int
        } else {
            0int
        },
{
}

proof fn lemma_days_before_year(y: int)
    requires
        y >= 1970,
    ensures
        days_before_year(y) == 365 * (y - 1970) + leap_years(y - 1) - 477,
    decreases y,
{
    if y > 1970 {
        lemma_days_before_year(y - 1);
        lemma_leap_years_step(y - 1);
    }
}

proof fn lemma_days_before_month(y: int)
    ensures
        days_before_month(y, 1) == 0,
        days_before_month(y, 2) == 31,
        ({
            let f = if is_leap(y) {
                29int
            } else {
                28int
            };
            &&& days_before_month(y, 3) == 31 + f
            &&& days_before_month(y, 4) == 62 + f
            &&& days_before_month(y, 5) == 92 + f
            &&& days_before_month(y, 6) == 123 + f
            &&& days_before_month(y, 7) == 153 + f
            &&& days_before_month(y, 8) == 184 + f
            &&& days_before_month(y, 9) == 215 + f
            &&& days_before_month(y, 10) == 245 + f
            &&& days_before_month(y, 11) == 276 + f
            &&& days_before_month(y, 12) == 306 + f
        }),
{
    reveal_with_fuel(days_before_month, 13);
}

/// The year within a cycle of four hundred years, and the day within that year,
/// years being counted from March.
proof fn lemma_year_of_cycle(day: u32)
    requires
        day <= 146096,
    ensures
        ({
            let year = (day - day / 1460 + day / 36524 - day / 146096) / 365;
            let rest = day - (365 * year + year / 4 - year / 100);
            &&& 0 <= year <= 399
            &&& 0 <= rest <= 365
            &&& rest == 365 ==> (year + 1) % 4 == 0 && ((year + 1) % 100 != 0 || year == 399)
        }),
{
    let year: u32 = ((day - day / 1460 + day / 36524 - day / 146096) / 365) as u32;
    assert(year == ((day - day / 1460 + day / 36524 - day / 146096) / 365) as u32 ==> day <= 146096
        ==> {
        &&& year <= 399
        &&& day >= 365 * year + year / 4 - year / 100
        &&& day - (365 * year + year / 4 - year / 100) <= 365
        &&& day - (365 * year + year / 4 - year / 100) == 365 ==> (year + 1) % 4 == 0 && ((year + 1)
            % 100 != 0 || year == 399)
    }) by (bit_vector);
}

proof fn lemma_days_before_year_grows(a: int, b: int)
    requires
        1970 <= a <= b,
    ensures
        days_before_year(a) <= days_before_year(b),
    decreases b - a,
{
    if a < b {
        lemma_days_before_year_grows(a, b - 1);
    }
}

proof fn lemma_days_before_month_grows(y: int, a: int, b: int)
    requires
        1 <= a <= b,
    ensures
        days_before_month(y, a) <= days_before_month(y, b),
    decreases b - a,
{
    if a < b {
        lemma_days_before_month_grows(y, a, b - 1);
    }
}

/// A valid date lies in its year.
proof fn lemma_within_year(d: Date)
    requires
        d.valid(),
    ensures
        days_before_year(d.year) <= d.day_number() < days_before_year(d.year + 1),
{
    lemma_days_before_month(d.year);
    lemma_days_before_month_grows(d.year, 1, d.month);
    lemma_days_before_month_grows(d.year, d.month + 1, 13);
    assert(days_before_month(d.year, 13) == days_before_month(d.year, 12) + month_length(
        d.year,
        12,
    ));
}

/// The calendar repeats every four hundred years, which have 146097 days, and a year
/// has the days of its twelve months.
pub proof fn calendar_repeats_every_four_hundred_years(y: int)
    requires
        y >= 1970,
    ensures
        days_before_year(y + 400) == days_before_year(y) + 146097,
        days_before_month(y, 12) + month_length(y, 12) == days_before_year(y + 1)
            - days_before_year(y),
{
    lemma_days_before_year(y);
    lemma_days_before_year(y + 400);
    lemma_days_before_month(y);
}

/// No two dates are the same day.
pub proof fn dates_are_distinct(a: Date, b: Date)
    requires
        a.valid(),
        b.valid(),
        a.day_number() == b.day_number(),
    ensures
        a == b,
{
    lemma_within_year(a);
    lemma_within_year(b);
    if a.year < b.year {
        lemma_days_before_year_grows(a.year + 1, b.year);
    }
    if b.year < a.year {
        lemma_days_before_year_grows(b.year + 1, a.year);
    }
    let y = a.year;
    if a.month < b.month {
        lemma_days_before_month_grows(y, a.month + 1, b.month);
    }
    if b.month < a.month {
        lemma_days_before_month_grows(y, b.month + 1, a.month);
    }
}

/// The date of a day is the one valid date with its number.
pub proof fn civil_date_is(d: Date)
    requires
        d.valid(),
    ensures
        civil_date(d.day_number()) == d,
{
    let n = d.day_number();
    dates_are_distinct(civil_date(n), d);
}

/// Every day from the first of January 1970 on has a date.
pub proof fn every_day_has_a_date(n: int)
    requires
        n >= 0,
    ensures
        civil_date(n).valid(),
        civil_date(n).day_number() == n,
{
    let z = n + 719468;
    let (era, day) = (z / 146097, z % 146097);
    let year = (day - day / 1460 + day / 36524 - day / 146096) / 365;
    let rest = day - (365 * year + year / 4 - year / 100);
    let shifted = (5 * rest + 2) / 153;
    lemma_date_found(n, era, day, year, rest, shifted);
    let d = march_date(era, year, rest, shifted);
    assert(d.valid() && d.day_number() == n);
}

/// The date from a year of the cycle, a day of that year and a month of it, all
/// counted from March.
spec fn march_date(era: int, year: int, rest: int, shifted: int) -> Date {
    let month = if shifted < 10 {
        shifted + 3
    } else {
        shifted - 9
    };
    Date {
        year: year + era * 400 + if month <= 2 {
            1int
        } else {
            0int
        },
        month,
        day: rest - (153 * shifted + 2) / 5 + 1,
    }
}

/// The month of a day of the year and the day within the month, counted from March.
proof fn lemma_month_found(rest: int, shifted: int)
    requires
        0 <= rest <= 365,
        shifted == (5 * rest + 2) / 153,
    ensures
        0 <= shifted <= 11,
        (153 * shifted + 2) / 5 <= rest,
        shifted < 11 ==> rest < (153 * (shifted + 1) + 2) / 5,
{
}

/// The year of a day, counted from March.
proof fn lemma_year_found(n: int, era: int, day: int, year: int, rest: int)
    requires
        n >= 0,
        era == (n + 719468) / 146097,
        day == (n + 719468) % 146097,
        year == (day - day / 1460 + day / 36524 - day / 146096) / 365,
        rest == day - (365 * year + year / 4 - year / 100),
    ensures
        0 <= year <= 399,
        0 <= rest <= 365,
        ({
            let y = year + era * 400;
            &&& n + 719468 == 365 * y + leap_years(y) + rest
            &&& rest == 365 ==> is_leap(y + 1)
        }),
{
    assert(0 <= year <= 399 && 0 <= rest <= 365 && (rest == 365 ==> (year + 1) % 4 == 0 && ((year
        + 1) % 100 != 0 || year == 399))) by {
        lemma_year_of_cycle(day as u32);
    }
    lemma_leap_years_of_cycle(era, year);
    assert(n + 719468 == 146097 * era + day);
}

/// The leap years up to a year of the cycle, and whether the next one is leap.
proof fn lemma_leap_years_of_cycle(era: int, year: int)
    requires
        0 <= year <= 399,
    ensures
        leap_years(year + era * 400) == 97 * era + year / 4 - year / 100,
        (year + 1) % 4 == 0 && ((year + 1) % 100 != 0 || year == 399) ==> is_leap(
            year + era * 400 + 1,
        ),
{
    let y = year + era * 400;
    assert(y / 4 == 100 * era + year / 4);
    assert(y / 100 == 4 * era + year / 100);
    assert(y / 400 == era);
    assert((y + 1) % 4 == (year + 1) % 4);
    assert((y + 1) % 100 == (year + 1) % 100);
    assert((y + 1) % 400 == (year + 1) % 400);
}

/// No day from 1970 on is in an earlier year.
proof fn lemma_year_not_before(n: int, y: int, rest: int)
    requires
        n >= 0,
        n + 719468 == 365 * y + leap_years(y) + rest,
        0 <= rest <= 365,
    ensures
        y >= 1969,
        y == 1969 ==> rest >= 306,
{
}

proof fn lemma_date_found(n: int, era: int, day: int, year: int, rest: int, shifted: int)
    requires
        n >= 0,
        era == (n + 719468) / 146097,
        day == (n + 719468) % 146097,
        year == (day - day / 1460 + day / 36524 - day / 146096) / 365,
        rest == day - (365 * year + year / 4 - year / 100),
        shifted == (5 * rest + 2) / 153,
    ensures
        0 <= year <= 399,
        0 <= rest <= 365,
        0 <= shifted <= 11,
        march_date(era, year, rest, shifted).valid(),
        march_date(era, year, rest, shifted).day_number() == n,
{
    lemma_year_found(n, era, day, year, rest);
    lemma_month_found(rest, shifted);
    let y = year + era * 400;
    lemma_year_not_before(n, y, rest);
    if shifted < 10 {
        lemma_from_march(n, y, rest, shifted);
    } else {
        lemma_to_march(n, y, rest, shifted);
    }
}

/// A day from March to December.
proof fn lemma_from_march(n: int, y: int, rest: int, shifted: int)
    requires
        y >= 1970,
        0 <= shifted < 10,
        (153 * shifted + 2) / 5 <= rest < (153 * (shifted + 1) + 2) / 5,
        n + 719468 == 365 * y + leap_years(y) + rest,
    ensures
        ({
            let d = Date {
                year: y,
                month: shifted + 3,
                day: rest - (153 * shifted + 2) / 5 + 1,
            };
            d.valid() && d.day_number() == n
        }),
{
    lemma_days_before_year(y);
    lemma_leap_years_step(y);
    lemma_days_before_month(y);
    let f = if is_leap(y) {
        29int
    } else {
        28int
    };
    assert(days_before_month(y, shifted + 3) == 31 + f + (153 * shifted + 2) / 5);
    assert(month_length(y, shifted + 3) == (153 * (shifted + 1) + 2) / 5 - (153 * shifted + 2) / 5);
}

/// A day in January or February, which are counted to the year before.
proof fn lemma_to_march(n: int, y: int, rest: int, shifted: int)
    requires
        y >= 1969,
        10 <= shifted <= 11,
        (153 * shifted + 2) / 5 <= rest <= 365,
        shifted < 11 ==> rest < (153 * (shifted + 1) + 2) / 5,
        rest == 365 ==> is_leap(y + 1),
        n + 719468 == 365 * y + leap_years(y) + rest,
    ensures
        ({
            let d = Date {
                year: y + 1,
                month: shifted - 9,
                day: rest - (153 * shifted + 2) / 5 + 1,
            };
            d.valid() && d.day_number() == n
        }),
{
    lemma_days_before_year(y + 1);
    lemma_days_before_month(y + 1);
}

// ------------------------------------------------------------------ the format

/// The English name of a day of the week, Sunday being the first.
pub open spec fn weekday_name(i: int) -> Seq<char> {
    if i == 0 {
        "Sun"@
    } else if i == 1 {
        "Mon"@
    } else if i == 2 {
        "Tue"@
    } else if i == 3 {
        "Wed"@
    } else if i == 4 {
        "Thu"@
    } else if i == 5 {
        "Fri"@
    } else {
        "Sat"@
    }
}

/// The English name of a month, January being the first.
pub open spec fn month_name(m: int) -> Seq<char> {
    if m == 1 {
        "Jan"@
    } else if m == 2 {
        "Feb"@
    } else if m == 3 {
        "Mar"@
    } else if m == 4 {
        "Apr"@
    } else if m == 5 {
        "May"@
    } else if m == 6 {
        "Jun"@
    } else if m == 7 {
        "Jul"@
    } else if m == 8 {
        "Aug"@
    } else if m == 9 {
        "Sep"@
    } else if m == 10 {
        "Oct"@
    } else if m == 11 {
        "Nov"@
    } else {
        "Dec"@
    }
}

/// A point in time as an RFC 9110 IMF-fixdate. The first of January 1970 was a
/// Thursday.
pub open spec fn http_date_text(unix_seconds: int) -> Seq<char> {
    let n = unix_seconds / 86400;
    let t = unix_seconds % 86400;
    let d = civil_date(n);
    weekday_name((n + 4) % 7) + ", "@ + numeral::two_digits(d.day as nat) + " "@ + month_name(
        d.month,
    ) + " "@ + numeral::decimal(d.year as nat) + " "@ + numeral::two_digits((t / 3600) as nat)
        + ":"@ + numeral::two_digits(((t / 60) % 60) as nat) + ":"@ + numeral::two_digits(
        (t % 60) as nat,
    ) + " GMT"@
}

fn weekday(i: u64) -> (name: &'static str)
    ensures
        name@ == weekday_name(i as int),
{
    match i {
        0 => "Sun",
        1 => "Mon",
        2 => "Tue",
        3 => "Wed",
        4 => "Thu",
        5 => "Fri",
        _ => "Sat",
    }
}

fn month_text(m: u64) -> (name: &'static str)
    ensures
        name@ == month_name(m as int),
{
    match m {
        1 => "Jan",
        2 => "Feb",
        3 => "Mar",
        4 => "Apr",
        5 => "May",
        6 => "Jun",
        7 => "Jul",
        8 => "Aug",
        9 => "Sep",
        10 => "Oct",
        11 => "Nov",
        _ => "Dec",
    }
}

/// The date of a day: its year, month and day of the month.
pub fn civil_from_days(days: u64) -> (date: (u64, u64, u64))
    requires
        days <= u64::MAX - 719468,
    ensures
        civil_date(days as int).valid(),
        civil_date(days as int).day_number() == days,
        date.0 == civil_date(days as int).year,
        date.1 == civil_date(days as int).month,
        date.2 == civil_date(days as int).day,
{
    let z: u64 = days + 719468;
    let era: u64 = z / 146097;
    let day_of_era: u64 = z % 146097;
    proof {
        lemma_year_of_cycle(day_of_era as u32);
    }
    let year_of_era: u64 = (day_of_era - day_of_era / 1460 + day_of_era / 36524 - day_of_era
        / 146096) / 365;
    let day_of_year: u64 = day_of_era - (365 * year_of_era + year_of_era / 4 - year_of_era / 100);
    let shifted_month: u64 = (5 * day_of_year + 2) / 153;
    proof {
        lemma_date_found(
            days as int,
            era as int,
            day_of_era as int,
            year_of_era as int,
            day_of_year as int,
            shifted_month as int,
        );
        civil_date_is(
            march_date(era as int, year_of_era as int, day_of_year as int, shifted_month as int),
        );
    }
    let day: u64 = day_of_year + 1 - (153 * shifted_month + 2) / 5;
    let month: u64 = if shifted_month < 10 {
        shifted_month + 3
    } else {
        shifted_month - 9
    };
    let year: u64 = year_of_era + era * 400 + if month <= 2 {
        1
    } else {
        0
    };
    (year, month, day)
}

/// A point in time as an RFC 9110 IMF-fixdate, e.g. `Sun, 06 Nov 1994 08:49:37 GMT`.
pub fn format_http_date(unix_seconds: u64) -> (date: String)
    ensures
        date@ == http_date_text(unix_seconds as int),
{
    let days: u64 = unix_seconds / 86400;
    let time_of_day: u64 = unix_seconds % 86400;
    let (year, month, day): (u64, u64, u64) = civil_from_days(days);
    let mut out: Vec<char> = text::chars_of(weekday((days + 4) % 7));
    text::push_text(&mut out, ", ");
    numeral::push_two_digits(&mut out, day);
    text::push_text(&mut out, " ");
    text::push_text(&mut out, month_text(month));
    text::push_text(&mut out, " ");
    numeral::push_decimal(&mut out, year);
    text::push_text(&mut out, " ");
    numeral::push_two_digits(&mut out, time_of_day / 3600);
    text::push_text(&mut out, ":");
    numeral::push_two_digits(&mut out, (time_of_day / 60) % 60);
    text::push_text(&mut out, ":");
    numeral::push_two_digits(&mut out, time_of_day % 60);
    text::push_text(&mut out, " GMT");
    text::text_of(out.as_slice())
}

} // verus!
