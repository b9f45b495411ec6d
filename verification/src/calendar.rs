//! The proleptic Gregorian calendar, counted in days from 1970-01-01.
use vstd::prelude::*;

verus! {

pub open spec fn is_leap(y: int) -> bool {
    y % 4 == 0 && (y % 100 != 0 || y % 400 == 0)
}

pub open spec fn leap_day(y: int) -> int {
    if is_leap(y) {
        1
    } else {
        0
    }
}

pub open spec fn days_in_month(y: int, m: int) -> int {
    if m == 2 {
        28 + leap_day(y)
    } else if m == 4 || m == 6 || m == 9 || m == 11 {
        30
    } else {
        31
    }
}

/// How many days lie between the first day of year 0 and that of year `y`.
pub open spec fn days_before_year(y: int) -> int {
    365 * y + (y + 3) / 4 - (y + 99) / 100 + (y + 399) / 400
}

/// How many days of year `y` lie before month `m`.
pub open spec fn days_before_month(y: int, m: int) -> int
    decreases m,
{
    if m <= 1 {
        0
    } else {
        days_before_month(y, m - 1) + days_in_month(y, m - 1)
    }
}

pub open spec fn valid_date(y: int, m: int, d: int) -> bool {
    1 <= m <= 12 && 1 <= d <= days_in_month(y, m)
}

/// The number of a date, counted from 1970-01-01.
pub open spec fn day_number(y: int, m: int, d: int) -> int {
    days_before_year(y) + days_before_month(y, m) + (d - 1) - 719528
}

/// The date with a given number.
pub open spec fn date_of(days: int) -> (int, int, int) {
    choose|date: (int, int, int)|
        valid_date(date.0, date.1, date.2) && #[trigger] day_number(date.0, date.1, date.2) == days
}

/// The order of dates: by year, then by month, then by day.
pub open spec fn date_before(a: (int, int, int), b: (int, int, int)) -> bool {
    a.0 < b.0 || (a.0 == b.0 && (a.1 < b.1 || (a.1 == b.1 && a.2 < b.2)))
}

// ---------------------------------------------------------------------------
// Laws.
// ---------------------------------------------------------------------------

/// The count of days before a year grows by that year's length.
pub proof fn law_year_length(y: int)
    ensures
        days_before_year(0) == 0,
        days_before_year(y + 1) == days_before_year(y) + 365 + leap_day(y),
        days_before_month(y, 12) + days_in_month(y, 12) == 365 + leap_day(y),
{
    lemma_months(y);
}

/// Dates are numbered in their order.
pub proof fn law_dates_ordered(a: (int, int, int), b: (int, int, int))
    requires
        valid_date(a.0, a.1, a.2),
        valid_date(b.0, b.1, b.2),
        date_before(a, b),
    ensures
        day_number(a.0, a.1, a.2) < day_number(b.0, b.1, b.2),
{
    if a.0 == b.0 {
        if a.1 < b.1 {
            lemma_month_gap(a.0, a.1, b.1);
        }
    } else {
        lemma_year_gap(a.0, b.0);
        lemma_month_end(a.0, a.1);
        lemma_months(b.0);
        lemma_month_start(b.0, b.1);
    }
}

/// A day number belongs to one date only.
pub proof fn law_date_unique(a: (int, int, int), b: (int, int, int))
    requires
        valid_date(a.0, a.1, a.2),
        valid_date(b.0, b.1, b.2),
        day_number(a.0, a.1, a.2) == day_number(b.0, b.1, b.2),
    ensures
        a == b,
{
    if date_before(a, b) {
        law_dates_ordered(a, b);
    } else if date_before(b, a) {
        law_dates_ordered(b, a);
    }
}

/// Every day number belongs to a date.
pub proof fn law_every_day_has_a_date(days: int)
    ensures
        valid_date(date_of(days).0, date_of(days).1, date_of(days).2),
        day_number(date_of(days).0, date_of(days).1, date_of(days).2) == days,
{
    let z = days + 719468;
    let era = z / 146097;
    let doe = z % 146097;
    lemma_year_of_era(doe);
    let date = march_date(era, doe);
    lemma_march_date(days, era, doe);
    assert(day_number(date.0, date.1, date.2) == days);
}

/// A later day has a later date.
pub proof fn law_later_days(a: int, b: int)
    requires
        a < b,
    ensures
        date_before(date_of(a), date_of(b)),
{
    law_every_day_has_a_date(a);
    law_every_day_has_a_date(b);
    if date_of(a) == date_of(b) {
    } else if date_before(date_of(b), date_of(a)) {
        law_dates_ordered(date_of(b), date_of(a));
    }
}

// ---------------------------------------------------------------------------
// The year counted from March.
// ---------------------------------------------------------------------------

/// The year of a day within its cycle of 400 years, counted from 1 March.
pub open spec fn year_of_era(doe: int) -> int {
    (doe - doe / 1460 + doe / 36524 - doe / 146096) / 365
}

/// The day within its year, counted from 1 March.
pub open spec fn day_of_year(doe: int) -> int {
    let yoe = year_of_era(doe);
    doe - (365 * yoe + yoe / 4 - yoe / 100)
}

/// The date of day `doe` of cycle `era`.
pub open spec fn march_date(era: int, doe: int) -> (int, int, int) {
    let yoe = year_of_era(doe);
    let doy = day_of_year(doe);
    let mp = (5 * doy + 2) / 153;
    let d = doy - (153 * mp + 2) / 5 + 1;
    let m = if mp < 10 {
        mp + 3
    } else {
        mp - 9
    };
    let y = yoe + era * 400;
    (
        if m <= 2 {
            y + 1
        } else {
            y
        },
        m,
        d,
    )
}

/// The year formula finds the year: its day is not negative and lies within
/// the year, which has a 366th day only before a leap day.
pub proof fn lemma_year_of_era(doe: int)
    requires
        0 <= doe < 146097,
    ensures
        0 <= year_of_era(doe) < 400,
        0 <= day_of_year(doe) <= 364 + leap_day(year_of_era(doe) + 1),
{
    let c = if doe / 36524 > 3 {
        3
    } else {
        doe / 36524
    };
    let r1 = doe - 36524 * c;
    assert(0 <= r1 <= 36524);
    assert(c < 3 ==> r1 < 36524);
    let q = if r1 / 1461 > 24 {
        24
    } else {
        r1 / 1461
    };
    let r2 = r1 - 1461 * q;
    assert(0 <= q <= 24);
    assert(0 <= r2 <= 1460);
    let t = if r2 / 365 > 3 {
        3
    } else {
        r2 / 365
    };
    let r = r2 - 365 * t;
    assert(0 <= t <= 3);
    assert(0 <= r <= 365);
    assert(r == 365 ==> t == 3);
    let year = 100 * c + 4 * q + t;
    assert(0 <= year < 400);
    assert(year / 4 == 25 * c + q);
    assert(year / 100 == c);
    assert(doe / 36524 - doe / 146096 == c);
    let extra = 24 * c + q + 365 * t + r;
    assert(doe == 1460 * (25 * c + q) + extra);
    assert(0 <= extra < 2920);
    assert(doe / 1460 == 25 * c + q + (if extra >= 1460 {
        1int
    } else {
        0
    }));
    assert(year_of_era(doe) == year);
    assert(day_of_year(doe) == r);
    if r == 365 {
        assert((year + 1) % 4 == 0);
        if q == 24 {
            assert(c == 3);
            assert((year + 1) % 400 == 0);
        } else {
            assert((year + 1) % 100 != 0);
        }
        assert(is_leap(year + 1));
    }
}

proof fn lemma_months(y: int)
    ensures
        days_before_month(y, 1) == 0,
        days_before_month(y, 2) == 31,
        days_before_month(y, 3) == 59 + leap_day(y),
        days_before_month(y, 4) == 90 + leap_day(y),
        days_before_month(y, 5) == 120 + leap_day(y),
        days_before_month(y, 6) == 151 + leap_day(y),
        days_before_month(y, 7) == 181 + leap_day(y),
        days_before_month(y, 8) == 212 + leap_day(y),
        days_before_month(y, 9) == 243 + leap_day(y),
        days_before_month(y, 10) == 273 + leap_day(y),
        days_before_month(y, 11) == 304 + leap_day(y),
        days_before_month(y, 12) == 334 + leap_day(y),
{
    reveal_with_fuel(days_before_month, 13);
}

proof fn lemma_month_gap(y: int, m: int, n: int)
    requires
        1 <= m < n <= 12,
    ensures
        days_before_month(y, m) + days_in_month(y, m) <= days_before_month(y, n),
    decreases n,
{
    if n > m + 1 {
        lemma_month_gap(y, m, n - 1);
    }
}

proof fn lemma_month_end(y: int, m: int)
    requires
        1 <= m <= 12,
    ensures
        days_before_month(y, m) + days_in_month(y, m) <= 365 + leap_day(y),
{
    lemma_months(y);
    if m < 12 {
        lemma_month_gap(y, m, 12);
    }
}

proof fn lemma_month_start(y: int, m: int)
    requires
        1 <= m <= 12,
    ensures
        days_before_month(y, m) >= 0,
{
    if m > 1 {
        lemma_month_gap(y, 1, m);
    }
}

proof fn lemma_year_gap(y: int, z: int)
    requires
        y < z,
    ensures
        days_before_year(y) + 365 + leap_day(y) <= days_before_year(z),
    decreases z - y,
{
    law_year_length(y);
    if z > y + 1 {
        law_year_length(z - 1);
        lemma_year_gap(y, z - 1);
    }
}

/// The months counted from March.
proof fn lemma_march_month(doy: int)
    requires
        0 <= doy <= 365,
    ensures
        ({
            let mp = (5 * doy + 2) / 153;
            let first = (153 * mp + 2) / 5;
            &&& 0 <= mp <= 11
            &&& first <= doy
            &&& mp == 0 ==> first == 0 && doy < 31
            &&& mp == 1 ==> first == 31 && doy < 61
            &&& mp == 2 ==> first == 61 && doy < 92
            &&& mp == 3 ==> first == 92 && doy < 122
            &&& mp == 4 ==> first == 122 && doy < 153
            &&& mp == 5 ==> first == 153 && doy < 184
            &&& mp == 6 ==> first == 184 && doy < 214
            &&& mp == 7 ==> first == 214 && doy < 245
            &&& mp == 8 ==> first == 245 && doy < 275
            &&& mp == 9 ==> first == 275 && doy < 306
            &&& mp == 10 ==> first == 306 && doy < 337
            &&& mp == 11 ==> first == 337
        }),
{
}

/// The days before a year of a cycle.
proof fn lemma_cycle_years(era: int, yoe: int)
    requires
        0 <= yoe < 400,
    ensures
        days_before_year(yoe + era * 400) + leap_day(yoe + era * 400) == era * 146097 + 365 * yoe
            + yoe / 4 - yoe / 100 + 1,
        leap_day(yoe + era * 400 + 1) == leap_day(yoe + 1),
{
    let year = yoe + era * 400;
    lemma_whole_cycles(yoe, era, 4, 100);
    lemma_whole_cycles(yoe, era, 100, 4);
    lemma_whole_cycles(yoe, era, 400, 1);
    lemma_whole_cycles(yoe + 1, era, 4, 100);
    lemma_whole_cycles(yoe + 1, era, 100, 4);
    lemma_whole_cycles(yoe + 1, era, 400, 1);
    lemma_whole_cycles(yoe + 3, era, 4, 100);
    lemma_whole_cycles(yoe + 99, era, 100, 4);
    lemma_whole_cycles(yoe + 399, era, 400, 1);
    lemma_first_cycle(yoe);
}

/// Whole cycles of 400 years do not change the remainder of a year.
proof fn lemma_whole_cycles(x: int, era: int, d: int, n: int)
    requires
        d > 0,
        d * n == 400,
    ensures
        (x + era * 400) % d == x % d,
        (x + era * 400) / d == x / d + era * n,
{
    vstd::arithmetic::div_mod::lemma_fundamental_div_mod(x, d);
    vstd::arithmetic::div_mod::lemma_mod_bound(x, d);
    let (q, r) = (x / d, x % d);
    assert(x + era * 400 == (q + era * n) * d + r) by (nonlinear_arith)
        requires
            x == d * q + r,
            d * n == 400,
    ;
    vstd::arithmetic::div_mod::lemma_fundamental_div_mod_converse(
        x + era * 400,
        d,
        q + era * n,
        r,
    );
}

proof fn lemma_first_cycle(yoe: int)
    requires
        0 <= yoe < 400,
    ensures
        days_before_year(yoe) + leap_day(yoe) == 365 * yoe + yoe / 4 - yoe / 100 + 1,
{
    assert((yoe + 399) / 400 == if yoe == 0 {
        0int
    } else {
        1int
    });
    assert((yoe + 3) / 4 == yoe / 4 + if yoe % 4 == 0 {
        0int
    } else {
        1int
    });
    assert((yoe + 99) / 100 == yoe / 100 + if yoe % 100 == 0 {
        0int
    } else {
        1int
    });
    assert(yoe % 400 == 0 <==> yoe == 0);
    assert(yoe % 100 == 0 ==> yoe % 4 == 0);
}

/// The date counted from March is the date with the number that it came from.
pub proof fn lemma_march_date(days: int, era: int, doe: int)
    requires
        0 <= doe < 146097,
        days + 719468 == era * 146097 + doe,
    ensures
        ({
            let date = march_date(era, doe);
            &&& valid_date(date.0, date.1, date.2)
            &&& day_number(date.0, date.1, date.2) == days
        }),
{
    lemma_year_of_era(doe);
    let yoe = year_of_era(doe);
    let doy = day_of_year(doe);
    let year = yoe + era * 400;
    let y = march_date(era, doe).0;
    lemma_march_month(doy);
    lemma_cycle_years(era, yoe);
    law_year_length(year);
    lemma_months(y);
}

// ---------------------------------------------------------------------------
// The date of a day.
// ---------------------------------------------------------------------------

/// The quotient of `a` by `b`, rounded down.
pub fn floor_div(a: i64, b: i64) -> (q: i64)
    requires
        b > 0,
    ensures
        q == a as int / b as int,
{
    if a >= 0 {
        a / b
    } else {
        let up: i64 = -(a + 1) / b;
        proof {
            let k: int = -(a as int + 1);
            let bb: int = b as int;
            vstd::arithmetic::div_mod::lemma_fundamental_div_mod(k, bb);
            vstd::arithmetic::div_mod::lemma_mod_bound(k, bb);
            let u: int = k / bb;
            let rem: int = k % bb;
            assert(a as int == (-u - 1) * bb + (bb - 1 - rem)) by (nonlinear_arith)
                requires
                    k == bb * u + rem,
                    k == -(a as int + 1),
            ;
            vstd::arithmetic::div_mod::lemma_fundamental_div_mod_converse(
                a as int,
                bb,
                -u - 1,
                bb - 1 - rem,
            );
        }
        -up - 1
    }
}

/// Year, month and day from a count of days since 1970-01-01.
pub fn civil_from_days(days: i64) -> (r: (i64, i64, i64))
    requires
        days <= i64::MAX - 719_468,
    ensures
        valid_date(r.0 as int, r.1 as int, r.2 as int),
        day_number(r.0 as int, r.1 as int, r.2 as int) == days,
        (r.0 as int, r.1 as int, r.2 as int) == date_of(days as int),
{
    let z: i64 = days + 719_468;
    let era: i64 = floor_div(z, 146_097);
    let doe: i64 = (z as i128 - era as i128 * 146_097) as i64;
    proof {
        lemma_year_of_era(doe as int);
    }
    let yoe: i64 = (doe - doe / 1460 + doe / 36524 - doe / 146096) / 365;
    let y: i64 = yoe + era * 400;
    let doy: i64 = doe - (365 * yoe + yoe / 4 - yoe / 100);
    let mp: i64 = (5 * doy + 2) / 153;
    let d: i64 = doy - (153 * mp + 2) / 5 + 1;
    let m: i64 = if mp < 10 {
        mp + 3
    } else {
        mp - 9
    };
    let year: i64 = if m <= 2 {
        y + 1
    } else {
        y
    };
    proof {
        lemma_march_date(days as int, era as int, doe as int);
        law_every_day_has_a_date(days as int);
        law_date_unique((year as int, m as int, d as int), date_of(days as int));
    }
    (year, m, d)
}

/// The months have their lengths, February by the leap years, and the days are
/// counted from the first of January 1970.
pub proof fn law_month_lengths(y: int, m: int)
    requires
        1 <= m <= 12,
    ensures
        ({
            let leap = y % 400 == 0 || (y % 4 == 0 && y % 100 != 0);
            let february = if leap {
                29int
            } else {
                28int
            };
            let lengths = seq![31int, february, 31, 30, 31, 30, 31, 31, 30, 31, 30, 31];
            let next = if m == 12 {
                day_number(y + 1, 1, 1)
            } else {
                day_number(y, m + 1, 1)
            };
            &&& next - day_number(y, m, 1) == lengths[m - 1]
            &&& forall|d: int|
                #![trigger valid_date(y, m, d)]
                valid_date(y, m, d) <==> 1 <= d <= lengths[m - 1]
            &&& forall|d: int|
                #![trigger day_number(y, m, d)]
                day_number(y, m, d) == day_number(y, m, 1) + d - 1
        }),
        day_number(1970, 1, 1) == 0,
{
    law_year_length(y);
    reveal_with_fuel(days_before_month, 2);
    let leap = y % 400 == 0 || (y % 4 == 0 && y % 100 != 0);
    assert(y % 400 == 0 ==> y % 4 == 0);
    assert(is_leap(y) == leap);
}

} // verus!
