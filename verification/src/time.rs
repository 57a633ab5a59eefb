//! Calendar dates from day counts.
//!
//! A day count is the number of days since 1 January 1970. The calendar is the
//! Gregorian one; it is defined here from the lengths of its years and months,
//! and the conversion is proved against that definition.

use crate::text::{decimal, decimal_string, push_decimal};
use vstd::arithmetic::div_mod::{
    lemma_fundamental_div_mod, lemma_fundamental_div_mod_converse, lemma_mod_bound,
};
use vstd::prelude::*;
use vstd::string::*;

verus! {

/// How a month is written.
#[derive(Clone, Copy, Debug)]
pub enum DateFormat {
    /// The month's number, 1 to 12.
    Numeric,
    /// The English name in full.
    FullMonth,
    /// The first three letters of the English name.
    ShortMonth,
}

/// A day of the Gregorian calendar, not before 1 January 1970.
#[derive(Clone, Copy, Debug)]
pub struct SimpleDate {
    year: u64,
    month: u64,
    day: u64,
}

/// Whether `year` is a leap year.
pub open spec fn is_leap_year(year: int) -> bool {
    year % 4 == 0 && (year % 100 != 0 || year % 400 == 0)
}

/// The number of days of `year`.
pub open spec fn days_in_year(year: int) -> int {
    if is_leap_year(year) {
        366
    } else {
        365
    }
}

/// The number of days of month `month` (1 to 12) of `year`.
pub open spec fn days_in_month(year: int, month: int) -> int {
    if month == 2 {
        if is_leap_year(year) {
            29
        } else {
            28
        }
    } else if month == 4 || month == 6 || month == 9 || month == 11 {
        30
    } else {
        31
    }
}

/// The number of days from 1 January 1970 to 1 January of `year`.
pub open spec fn days_before_year(year: int) -> int
    decreases year,
{
    if year <= 1970 {
        0
    } else {
        days_before_year(year - 1) + days_in_year(year - 1)
    }
}

/// The number of days of `year` that lie before the first of `month`.
pub open spec fn days_before_month(year: int, month: int) -> int
    decreases month,
{
    if month <= 1 {
        0
    } else {
        days_before_month(year, month - 1) + days_in_month(year, month - 1)
    }
}

/// Whether year, month and day name a day of the calendar from 1970 on.
pub open spec fn valid_date(year: int, month: int, day: int) -> bool {
    &&& year >= 1970
    &&& 1 <= month <= 12
    &&& 1 <= day <= days_in_month(year, month)
}

/// The day count of a date: the number of days from 1 January 1970 to it.
pub open spec fn day_number(year: int, month: int, day: int) -> int {
    days_before_year(year) + days_before_month(year, month) + (day - 1)
}

/// The English name of month `month` (1 to 12); empty for any other number.
pub open spec fn name_of_month(month: int) -> Seq<char> {
    if month == 1 {
        "January"@
    } else if month == 2 {
        "February"@
    } else if month == 3 {
        "March"@
    } else if month == 4 {
        "April"@
    } else if month == 5 {
        "May"@
    } else if month == 6 {
        "June"@
    } else if month == 7 {
        "July"@
    } else if month == 8 {
        "August"@
    } else if month == 9 {
        "September"@
    } else if month == 10 {
        "October"@
    } else if month == 11 {
        "November"@
    } else if month == 12 {
        "December"@
    } else {
        Seq::empty()
    }
}

/// The message with which a month number outside 1 to 12 is refused.
pub open spec fn invalid_month_message(month: nat) -> Seq<char> {
    "Invalid month "@ + decimal(month) + ". Range is [1,12]"@
}

/// A month as `format` writes it.
pub open spec fn month_text(month: int, format: DateFormat) -> Seq<char> {
    match format {
        DateFormat::Numeric => decimal(month as nat),
        DateFormat::FullMonth => name_of_month(month),
        DateFormat::ShortMonth => name_of_month(month).take(3),
    }
}

/// The number of leap years from year 1 up to and including `year`.
#[verifier::opaque]
spec fn leap_years_through(year: int) -> int {
    year / 4 - year / 100 + year / 400
}

/// The year within an era of 400 years that holds day `doe` of the era. The
/// years of an era begin on 1 March.
#[verifier::opaque]
spec fn year_of_era(doe: int) -> int {
    (doe - doe / 1460 + doe / 36524 - doe / 146096) / 365
}

/// The number of days of an era that lie before its year `yoe`.
#[verifier::opaque]
spec fn days_before_year_of_era(yoe: int) -> int {
    365 * yoe + yoe / 4 - yoe / 100
}

/// The month, counted from March as 0, that holds day `doy` of a year that
/// begins on 1 March.
#[verifier::opaque]
spec fn month_from_march(doy: int) -> int {
    (5 * doy + 2) / 153
}

/// The number of days that lie before month `mp`, counted from March as 0, in
/// a year that begins on 1 March.
#[verifier::opaque]
spec fn days_before_month_from_march(mp: int) -> int {
    (153 * mp + 2) / 5
}

/// The number of days of a year that is no leap year before the first of `month`.
spec fn days_before_month_of_common_year(month: int) -> int {
    if month <= 1 {
        0
    } else if month == 2 {
        31
    } else if month == 3 {
        59
    } else if month == 4 {
        90
    } else if month == 5 {
        120
    } else if month == 6 {
        151
    } else if month == 7 {
        181
    } else if month == 8 {
        212
    } else if month == 9 {
        243
    } else if month == 10 {
        273
    } else if month == 11 {
        304
    } else {
        334
    }
}

/// Whether the year that follows year `yoe` of an era is a leap year.
#[verifier::opaque]
spec fn leap_year_follows(yoe: int) -> bool {
    (yoe + 1) % 4 == 0 && ((yoe + 1) % 100 != 0 || yoe == 399)
}

/// A number is its quotient times the divisor, and its rest.
proof fn lemma_quotient(x: int, d: int)
    requires
        d > 0,
    ensures
        x == d * (x / d) + x % d,
        0 <= x % d < d,
{
    lemma_fundamental_div_mod(x, d);
    lemma_mod_bound(x, d);
}

/// What is `q` times the divisor and a rest `r` has the quotient `q` and the rest `r`.
proof fn lemma_divides(x: int, d: int, q: int, r: int)
    requires
        d > 0,
        0 <= r < d,
        x == q * d + r,
    ensures
        x / d == q,
        x % d == r,
{
    lemma_fundamental_div_mod_converse(x, d, q, r);
}

proof fn lemma_year_of_era(doe: int)
    requires
        0 <= doe <= 146096,
    ensures
        0 <= year_of_era(doe) <= 399,
        days_before_year_of_era(year_of_era(doe)) <= doe,
        doe - days_before_year_of_era(year_of_era(doe)) <= 365,
        doe - days_before_year_of_era(year_of_era(doe)) == 365 ==> leap_year_follows(
            year_of_era(doe),
        ),
{
    // A century of the era has 36524 days and four years have 1461, but for
    // the last day of the era, which is one more.
    let last = if doe == 146096 {
        1int
    } else {
        0int
    };
    let within = doe - last;
    lemma_quotient(within, 36524);
    let century = within / 36524;
    let rest = within % 36524;
    lemma_quotient(rest, 1461);
    let cycle = rest / 1461;
    let day = rest % 1461 + last;
    assert(0 <= century <= 3);
    assert(0 <= cycle <= 24);
    assert(doe == 36524 * century + 1461 * cycle + day);
    // The quotients of the formula.
    let spill = 24 * century + cycle + day;
    lemma_quotient(spill, 1460);
    let carry = spill / 1460;
    assert(0 <= carry <= 1);
    lemma_divides(doe, 1460, 25 * century + cycle + carry, spill % 1460);
    if last == 1 {
        lemma_divides(doe, 36524, 4, 0);
        lemma_divides(doe, 146096, 1, 0);
    } else {
        lemma_divides(doe, 146096, 0, doe);
    }
    let shrunk = doe - doe / 1460 + doe / 36524 - doe / 146096;
    assert(shrunk == 365 * (100 * century + 4 * cycle) + (day - carry));
    // The year within the four.
    lemma_quotient(day, 365);
    let year = if day >= 1460 {
        3int
    } else {
        day / 365
    };
    assert(0 <= year <= 3);
    assert(365 * year <= day - carry < 365 * year + 365);
    let yoe = 100 * century + 4 * cycle + year;
    lemma_divides(shrunk, 365, yoe, day - carry - 365 * year);
    assert(year_of_era(doe) == yoe) by {
        reveal(year_of_era);
    }
    // The days before that year.
    lemma_divides(yoe, 4, 25 * century + cycle, year);
    lemma_divides(yoe, 100, century, 4 * cycle + year);
    assert(days_before_year_of_era(yoe) == 36524 * century + 1461 * cycle + 365 * year) by {
        reveal(days_before_year_of_era);
    }
    if day - 365 * year == 365 {
        lemma_divides(yoe + 1, 4, 25 * century + cycle + 1, 0);
        if cycle < 24 {
            lemma_divides(yoe + 1, 100, century, 4 * cycle + 4);
        }
        assert(leap_year_follows(yoe)) by {
            reveal(leap_year_follows);
        }
    }
}

proof fn lemma_leap_years_step(year: int)
    ensures
        leap_years_through(year) == leap_years_through(year - 1) + if is_leap_year(year) {
            1int
        } else {
            0int
        },
{
    lemma_quotient(year, 4);
    lemma_quotient(year, 100);
    lemma_quotient(year, 400);
    if year % 4 == 0 {
        lemma_divides(year - 1, 4, year / 4 - 1, 3);
    } else {
        lemma_divides(year - 1, 4, year / 4, year % 4 - 1);
    }
    if year % 100 == 0 {
        lemma_divides(year - 1, 100, year / 100 - 1, 99);
        lemma_divides(year, 4, 25 * (year / 100), 0);
    } else {
        lemma_divides(year - 1, 100, year / 100, year % 100 - 1);
    }
    if year % 400 == 0 {
        lemma_divides(year - 1, 400, year / 400 - 1, 399);
        lemma_divides(year, 100, 4 * (year / 400), 0);
    } else {
        lemma_divides(year - 1, 400, year / 400, year % 400 - 1);
    }
    reveal(leap_years_through);
}

proof fn lemma_leap_years_of_era(era: int, yoe: int)
    requires
        0 <= yoe <= 399,
    ensures
        365 * (era * 400 + yoe) + leap_years_through(era * 400 + yoe) == 146097 * era
            + days_before_year_of_era(yoe),
        is_leap_year(era * 400 + yoe + 1) <==> leap_year_follows(yoe),
{
    let year = era * 400 + yoe;
    lemma_quotient(yoe, 4);
    lemma_quotient(yoe, 100);
    lemma_divides(year, 4, era * 100 + yoe / 4, yoe % 4);
    lemma_divides(year, 100, era * 4 + yoe / 100, yoe % 100);
    lemma_divides(year, 400, era, yoe);
    assert(365 * year + leap_years_through(year) == 146097 * era + days_before_year_of_era(yoe))
        by {
        reveal(leap_years_through);
        reveal(days_before_year_of_era);
    }
    lemma_quotient(yoe + 1, 4);
    lemma_quotient(yoe + 1, 100);
    lemma_divides(year + 1, 4, era * 100 + (yoe + 1) / 4, (yoe + 1) % 4);
    lemma_divides(year + 1, 100, era * 4 + (yoe + 1) / 100, (yoe + 1) % 100);
    if yoe == 399 {
        lemma_divides(year + 1, 400, era + 1, 0);
        lemma_divides(yoe + 1, 100, 4, 0);
    } else {
        lemma_divides(year + 1, 400, era, yoe + 1);
    }
    reveal(leap_year_follows);
}

proof fn lemma_days_before_year(year: int)
    requires
        year >= 1970,
    ensures
        days_before_year(year) == 365 * (year - 1970) + leap_years_through(year - 1) - 477,
    decreases year,
{
    if year > 1970 {
        lemma_days_before_year(year - 1);
        lemma_leap_years_step(year - 1);
    } else {
        assert(leap_years_through(1969) == 477) by {
            reveal(leap_years_through);
        }
    }
}

proof fn lemma_days_before_month(year: int, month: int)
    requires
        1 <= month <= 12,
    ensures
        days_before_month(year, month) == days_before_month_of_common_year(month) + if month > 2
            && is_leap_year(year) {
            1int
        } else {
            0int
        },
    decreases month,
{
    if month > 1 {
        lemma_days_before_month(year, month - 1);
    }
}

proof fn lemma_month_of_year_day(doy: int)
    requires
        0 <= doy <= 365,
    ensures
        0 <= month_from_march(doy) <= 11,
        days_before_month_from_march(month_from_march(doy)) <= doy,
        month_from_march(doy) < 11 ==> doy < days_before_month_from_march(
            month_from_march(doy) + 1,
        ),
{
    lemma_quotient(5 * doy + 2, 153);
    let mp = (5 * doy + 2) / 153;
    assert(mp == month_from_march(doy)) by {
        reveal(month_from_march);
    }
    assert(0 <= mp <= 11);
    lemma_months_from_march(mp);
    if mp < 11 {
        lemma_months_from_march(mp + 1);
    }
}

/// The months of a year that begins on 1 March begin where those of the
/// calendar do.
proof fn lemma_months_from_march(mp: int)
    requires
        0 <= mp <= 11,
    ensures
        days_before_month_from_march(mp) == if mp < 10 {
            days_before_month_of_common_year(mp + 3) - 59
        } else {
            days_before_month_of_common_year(mp - 9) + 306
        },
        5 * days_before_month_from_march(mp) <= 153 * mp + 2 < 5 * days_before_month_from_march(mp)
            + 5,
{
    lemma_quotient(153 * mp + 2, 5);
    let before = (153 * mp + 2) / 5;
    assert(before == days_before_month_from_march(mp)) by {
        reveal(days_before_month_from_march);
    }
    assert(mp == 0 || mp == 1 || mp == 2 || mp == 3 || mp == 4 || mp == 5 || mp == 6 || mp == 7
        || mp == 8 || mp == 9 || mp == 10 || mp == 11);
}

proof fn lemma_year_not_before_epoch(days: int, era: int, yoe: int, doy: int)
    requires
        0 <= days,
        0 <= yoe <= 399,
        0 <= doy <= 365,
        days + 719468 == 146097 * era + days_before_year_of_era(yoe) + doy,
    ensures
        era * 400 + yoe >= 1969,
        era * 400 + yoe == 1969 ==> doy >= 306,
{
    lemma_quotient(yoe, 4);
    lemma_quotient(yoe, 100);
    let before = days_before_year_of_era(yoe);
    assert(before == 365 * yoe + yoe / 4 - yoe / 100) by {
        reveal(days_before_year_of_era);
    }
    assert(365 * yoe <= before <= 365 * yoe + 100);
    assert(era >= 4);
    if era == 4 {
        assert(yoe >= 369);
        if yoe == 369 {
            lemma_divides(369, 4, 92, 1);
            lemma_divides(369, 100, 3, 69);
        }
    }
}

proof fn lemma_date_of_day(days: int, era: int, doe: int, doy: int, mp: int)
    requires
        0 <= days,
        era == (days + 719468) / 146097,
        doe == (days + 719468) - era * 146097,
        doy == doe - days_before_year_of_era(year_of_era(doe)),
        mp == month_from_march(doy),
    ensures
        ({
            let m = if mp < 10 {
                mp + 3
            } else {
                mp - 9
            };
            let y = year_of_era(doe) + era * 400 + if m <= 2 {
                1int
            } else {
                0int
            };
            let d = doy - days_before_month_from_march(mp) + 1;
            &&& valid_date(y, m, d)
            &&& day_number(y, m, d) == days
        }),
{
    lemma_quotient(days + 719468, 146097);
    let yoe = year_of_era(doe);
    lemma_year_of_era(doe);
    lemma_month_of_year_day(doy);
    lemma_months_from_march(mp);
    if mp < 11 {
        lemma_months_from_march(mp + 1);
    }
    let m = if mp < 10 {
        mp + 3
    } else {
        mp - 9
    };
    let march_year = era * 400 + yoe;
    let y = march_year + if m <= 2 {
        1int
    } else {
        0int
    };
    lemma_leap_years_of_era(era, yoe);
    lemma_year_not_before_epoch(days, era, yoe, doy);
    lemma_days_before_year(y);
    lemma_days_before_month(y, m);
    lemma_leap_years_step(march_year);
}

/// No two dates have the same day count: a later date has a greater one.
pub proof fn lemma_day_number_increases(y1: int, m1: int, d1: int, y2: int, m2: int, d2: int)
    requires
        valid_date(y1, m1, d1),
        valid_date(y2, m2, d2),
        y1 < y2 || (y1 == y2 && (m1 < m2 || (m1 == m2 && d1 < d2))),
    ensures
        day_number(y1, m1, d1) < day_number(y2, m2, d2),
{
    lemma_days_before_month(y1, m1);
    lemma_days_before_month(y2, m2);
    if y1 < y2 {
        lemma_days_before_year_grows(y1 + 1, y2);
    }
}

/// A later year begins later, by the length of the years between.
proof fn lemma_days_before_year_grows(from: int, to: int)
    requires
        1970 <= from <= to,
    ensures
        days_before_year(from) <= days_before_year(to),
    decreases to - from,
{
    if from < to {
        lemma_days_before_year_grows(from, to - 1);
    }
}

proof fn lemma_month_name_len(month: int)
    requires
        1 <= month <= 12,
    ensures
        name_of_month(month).len() >= 3,
{
    reveal_strlit("January");
    reveal_strlit("February");
    reveal_strlit("March");
    reveal_strlit("April");
    reveal_strlit("May");
    reveal_strlit("June");
    reveal_strlit("July");
    reveal_strlit("August");
    reveal_strlit("September");
    reveal_strlit("October");
    reveal_strlit("November");
    reveal_strlit("December");
}

fn full_month(month: u64) -> (s: String)
    requires
        1 <= month <= 12,
    ensures
        s@ == name_of_month(month as int),
{
    let name = if month == 1 {
        "January"
    } else if month == 2 {
        "February"
    } else if month == 3 {
        "March"
    } else if month == 4 {
        "April"
    } else if month == 5 {
        "May"
    } else if month == 6 {
        "June"
    } else if month == 7 {
        "July"
    } else if month == 8 {
        "August"
    } else if month == 9 {
        "September"
    } else if month == 10 {
        "October"
    } else if month == 11 {
        "November"
    } else {
        "December"
    };
    name.to_owned()
}

/// A day count belongs to one date only.
pub proof fn lemma_date_unique(y1: int, m1: int, d1: int, y2: int, m2: int, d2: int)
    requires
        valid_date(y1, m1, d1),
        valid_date(y2, m2, d2),
        day_number(y1, m1, d1) == day_number(y2, m2, d2),
    ensures
        y1 == y2,
        m1 == m2,
        d1 == d2,
{
    if y1 < y2 || (y1 == y2 && (m1 < m2 || (m1 == m2 && d1 < d2))) {
        lemma_day_number_increases(y1, m1, d1, y2, m2, d2);
    } else if y2 < y1 || (y2 == y1 && (m2 < m1 || (m2 == m1 && d2 < d1))) {
        lemma_day_number_increases(y2, m2, d2, y1, m1, d1);
    }
}

/// The date, as year, month and day, whose day count is `days`.
pub open spec fn date_of(days: int) -> (int, int, int) {
    choose|date: (int, int, int)|
        valid_date(date.0, date.1, date.2) && day_number(date.0, date.1, date.2) == days
}

impl SimpleDate {
    #[verifier::type_invariant]
    spec fn is_date(self) -> bool {
        valid_date(self.year as int, self.month as int, self.day as int)
    }

    /// The year's number.
    pub closed spec fn year_number(&self) -> int {
        self.year as int
    }

    /// The month's number, 1 to 12.
    pub closed spec fn month_number(&self) -> int {
        self.month as int
    }

    /// The day's number within its month, from 1.
    pub closed spec fn day_of_month(&self) -> int {
        self.day as int
    }

    /// The date that lies `days` days after 1 January 1970, found in a fixed
    /// number of steps by the method of Howard Hinnant.
    pub fn from_days(days: u64) -> (date: SimpleDate)
        ensures
            valid_date(date.year_number(), date.month_number(), date.day_of_month()),
            day_number(date.year_number(), date.month_number(), date.day_of_month()) == days,
            date_of(days as int) == (
                date.year_number(),
                date.month_number(),
                date.day_of_month(),
            ),
    {
        // Day 0 of the eras is 1 March of the year 0: eras of 400 years, and
        // years that begin in March, end with the leap day.
        let z: u128 = days as u128 + 719468;
        proof {
            lemma_quotient(z as int, 146097);
        }
        let era: u128 = z / 146097;
        let doe: u128 = z - era * 146097;
        proof {
            lemma_year_of_era(doe as int);
            lemma_quotient(doe as int, 1460);
            lemma_quotient(doe as int, 36524);
            lemma_quotient(doe as int, 146096);
            reveal(year_of_era);
        }
        let yoe: u128 = (doe - doe / 1460 + doe / 36524 - doe / 146096) / 365;
        let y: u128 = yoe + era * 400;
        proof {
            lemma_quotient(yoe as int, 4);
            lemma_quotient(yoe as int, 100);
            reveal(days_before_year_of_era);
        }
        let doy: u128 = doe - (365 * yoe + yoe / 4 - yoe / 100);
        proof {
            lemma_month_of_year_day(doy as int);
            reveal(month_from_march);
        }
        let mp: u128 = (5 * doy + 2) / 153;
        proof {
            reveal(days_before_month_from_march);
        }
        let d: u128 = doy - (153 * mp + 2) / 5 + 1;
        let m: u128 = if mp < 10 {
            mp + 3
        } else {
            mp - 9
        };
        let year: u128 = if m <= 2 {
            y + 1
        } else {
            y
        };
        proof {
            lemma_date_of_day(days as int, era as int, doe as int, doy as int, mp as int);
            let found = (year as int, m as int, d as int);
            let chosen = date_of(days as int);
            lemma_date_unique(chosen.0, chosen.1, chosen.2, found.0, found.1, found.2);
        }
        SimpleDate { year: year as u64, month: m as u64, day: d as u64 }
    }

    /// The year as a decimal numeral.
    pub fn year(&self) -> (s: String)
        ensures
            s@ == decimal(self.year_number() as nat),
    {
        decimal_string(self.year as u128)
    }

    /// The month's number as a decimal numeral.
    pub fn month(&self) -> (s: String)
        ensures
            s@ == decimal(self.month_number() as nat),
    {
        decimal_string(self.month as u128)
    }

    /// The month as `format` writes it.
    pub fn month_display(&self, format: DateFormat) -> (s: String)
        ensures
            s@ == month_text(self.month_number(), format),
    {
        proof {
            use_type_invariant(self);
        }
        SimpleDate::month_name(self.month, format).unwrap()
    }

    /// Month `month_numeric` as `format` writes it. A number outside 1 to 12 is
    /// no month and is refused.
    pub fn month_name(month_numeric: u64, format: DateFormat) -> (r: Result<String, String>)
        ensures
            1 <= month_numeric <= 12 ==> r is Ok && r->Ok_0@ == month_text(
                month_numeric as int,
                format,
            ),
            !(1 <= month_numeric <= 12) ==> r is Err && r->Err_0@ == invalid_month_message(
                month_numeric as nat,
            ),
    {
        if 1 <= month_numeric && month_numeric <= 12 {
            match format {
                DateFormat::Numeric => Ok(decimal_string(month_numeric as u128)),
                DateFormat::FullMonth => Ok(full_month(month_numeric)),
                DateFormat::ShortMonth => {
                    let name = full_month(month_numeric);
                    proof {
                        lemma_month_name_len(month_numeric as int);
                    }
                    let short = name.as_str().substring_char(0, 3);
                    Ok(short.to_owned())
                },
            }
        } else {
            let mut message = String::new();
            message.append("Invalid month ");
            push_decimal(&mut message, month_numeric as u128);
            message.append(". Range is [1,12]");
            assert(message@ =~= invalid_month_message(month_numeric as nat));
            Err(message)
        }
    }

    /// The English name of month `month_numeric`, or why it has none.
    pub fn month_from_numeric(&self, month_numeric: u64) -> (r: Result<String, String>)
        ensures
            1 <= month_numeric <= 12 ==> r is Ok && r->Ok_0@ == name_of_month(
                month_numeric as int,
            ),
            !(1 <= month_numeric <= 12) ==> r is Err && r->Err_0@ == invalid_month_message(
                month_numeric as nat,
            ),
    {
        SimpleDate::month_name(month_numeric, DateFormat::FullMonth)
    }

    /// The day of the month as a decimal numeral.
    pub fn day(&self) -> (s: String)
        ensures
            s@ == decimal(self.day_of_month() as nat),
    {
        decimal_string(self.day as u128)
    }
}

} // verus!
