//! The Gregorian calendar and United States Eastern time.

use vstd::prelude::*;

verus! {

/// The Julian Day Number of 1 January 1970.
pub const UNIX_EPOCH_DAY: i64 = 2_440_588;

pub const SECONDS_PER_DAY: u64 = 86_400;

pub open spec fn is_leap(year: int) -> bool {
    (year % 4 == 0 && year % 100 != 0) || year % 400 == 0
}

/// The number of days of a month; a month past December counts 30.
pub open spec fn month_length(year: int, month: int) -> int {
    if month == 2 {
        if is_leap(year) {
            29
        } else {
            28
        }
    } else if month == 1 || month == 3 || month == 5 || month == 7 || month == 8 || month == 10
        || month == 12 {
        31
    } else {
        30
    }
}

/// A day that the Gregorian calendar has.
pub open spec fn is_date(year: int, month: int, day: int) -> bool {
    1 <= month <= 12 && 1 <= day <= month_length(year, month)
}

/// The days of `year` before the first of `month`.
pub open spec fn days_before_month(year: int, month: int) -> int
    decreases month,
{
    if month <= 1 {
        0
    } else {
        days_before_month(year, month - 1) + month_length(year, month - 1)
    }
}

/// The days from 1 January of year 0 to 1 January of `year`: 365 for each year, and one more for
/// each leap year among them.
pub open spec fn days_before_year(year: int) -> int {
    365 * year + (year + 3) / 4 - (year + 99) / 100 + (year + 399) / 400
}

/// The Julian Day Number of a date: days counted without a gap, 1 January of year 0 being
/// 1721060.
pub open spec fn day_number(year: int, month: int, day: int) -> int {
    1_721_060 + days_before_year(year) + days_before_month(year, month) + day - 1
}

/// What `ymd_to_jdn` evaluates, for numbers that need be no date: years are counted from March of
/// 4801 BC, and months past the twelfth from then on carry over.
pub open spec fn day_number_formula(year: int, month: int, day: int) -> int {
    let carry = if month < 3 {
        -1
    } else if month < 14 {
        0
    } else {
        (month - 14) / 12
    };
    let y = year + 4800 + carry;
    (1461 * y) / 4 + (367 * (month - 2 - 12 * carry)) / 12 - (3 * ((y + 100) / 100)) / 4 + day
        - 32_075
}

/// How far a month shifts the day of the week.
pub open spec fn month_shift(month: int) -> int {
    seq![0int, 3, 2, 5, 0, 3, 5, 1, 4, 6, 2, 4][month - 1]
}

/// The day of the week, 0 for Sunday to 6 for Saturday.
pub open spec fn weekday(year: int, month: int, day: int) -> int {
    let y = if month < 3 {
        year - 1
    } else {
        year
    };
    (y + y / 4 - y / 100 + y / 400 + month_shift(month) + day) % 7
}

/// The first Sunday of a month.
pub open spec fn first_sunday(year: int, month: int) -> int {
    1 + (7 - weekday(year, month, 1)) % 7
}

/// The hours by which Eastern time is ahead of UTC. Daylight time, -4, runs from the second
/// Sunday of March up to the first Sunday of November; standard time is -5.
pub open spec fn eastern_offset(year: int, month: int, day: int) -> int {
    if 3 < month < 11 || (month == 3 && day >= first_sunday(year, 3) + 7) || (month == 11 && day
        < first_sunday(year, 11)) {
        -4
    } else {
        -5
    }
}

/// The hours by which Eastern time is ahead of UTC at an hour of a UTC day. On the days on which
/// the clocks change, at 2 in the morning, the hours before still go by the old offset: those
/// before 07:00 UTC in March, and those before 06:00 UTC in November.
pub open spec fn eastern_offset_at(year: int, month: int, day: int, hour: int) -> int {
    if month == 3 && day == first_sunday(year, 3) + 7 {
        if hour < 7 {
            -5
        } else {
            -4
        }
    } else if month == 11 && day == first_sunday(year, 11) {
        if hour < 6 {
            -4
        } else {
            -5
        }
    } else {
        eastern_offset(year, month, day)
    }
}

/// The day before, as year, month and day.
pub open spec fn day_before(year: int, month: int, day: int) -> (int, int, int) {
    if day > 1 {
        (year, month, day - 1)
    } else if month > 1 {
        (year, month - 1, month_length(year, month - 1))
    } else {
        (year - 1, 12, 31)
    }
}

/// The days from a date to the day that holds the second `now_secs` after the start of 1970, UTC.
pub open spec fn days_ago(now_secs: int, year: int, month: int, day: int) -> int {
    UNIX_EPOCH_DAY + now_secs / SECONDS_PER_DAY as int - day_number_formula(year, month, day)
}

/// Division that rounds down.
fn divide(a: i64, b: i64) -> (r: i64)
    requires
        b > 0,
    ensures
        r == a as int / b as int,
        a >= 0 ==> 0 <= r <= a,
        a < 0 ==> a <= r <= 0,
{
    proof {
        assert(a >= 0 ==> 0 <= a as int / b as int <= a) by (nonlinear_arith)
            requires
                b > 0,
        ;
        assert(a < 0 ==> a <= a as int / b as int <= 0) by (nonlinear_arith)
            requires
                b > 0,
        ;
    }
    a.checked_div_euclid(b).unwrap()
}

/// Day of the week: 0 is Sunday, 6 is Saturday.
pub fn day_of_week(year: i32, month: u32, day: u32) -> (r: u32)
    requires
        1 <= month <= 12,
    ensures
        r == weekday(year as int, month as int, day as int),
        r == (day_number(year as int, month as int, day as int) + 1) % 7,
        r < 7,
{
    proof {
        law_weekday_follows_day_number(year as int, month as int, day as int);
    }
    let shifts: [i64; 12] = [0, 3, 2, 5, 0, 3, 5, 1, 4, 6, 2, 4];
    let y: i64 = if month < 3 {
        year as i64 - 1
    } else {
        year as i64
    };
    let shift: i64 = shifts[(month - 1) as usize];
    let sum: i64 = y + divide(y, 4) - divide(y, 100) + divide(y, 400) + shift + day as i64;
    assert(shift == month_shift(month as int));
    sum.checked_rem_euclid(7).unwrap() as u32
}

/// Subtract one calendar day.
pub fn prev_day(yr: i32, mo: u32, dy: u32) -> (r: (i32, u32, u32))
    requires
        yr > i32::MIN || mo > 1 || dy > 1,
    ensures
        (r.0 as int, r.1 as int, r.2 as int) == day_before(yr as int, mo as int, dy as int),
{
    if dy > 1 {
        return (yr, mo, dy - 1);
    }
    if mo > 1 {
        let pm: u32 = mo - 1;
        let last: u32 = match pm {
            1 | 3 | 5 | 7 | 8 | 10 | 12 => 31,
            4 | 6 | 9 | 11 => 30,
            2 => if leap_year(yr) {
                29
            } else {
                28
            },
            _ => 30,
        };
        return (yr, pm, last);
    }
    (yr - 1, 12, 31)
}

fn leap_year(yr: i32) -> (r: bool)
    ensures
        r == is_leap(yr as int),
{
    let by4: bool = yr.checked_rem_euclid(4).unwrap() == 0;
    let by100: bool = yr.checked_rem_euclid(100).unwrap() == 0;
    let by400: bool = yr.checked_rem_euclid(400).unwrap() == 0;
    (by4 && !by100) || by400
}

/// The days of one month run through the week in order.
pub proof fn lemma_weekday_runs(year: int, month: int, day: int)
    requires
        1 <= month <= 12,
    ensures
        weekday(year, month, day) == (weekday(year, month, 1) + day - 1) % 7,
{
}

/// The first Sunday of a month is a Sunday, in its first seven days, and no day before it is.
pub proof fn lemma_first_sunday(year: int, month: int)
    requires
        1 <= month <= 12,
    ensures
        1 <= first_sunday(year, month) <= 7,
        weekday(year, month, first_sunday(year, month)) == 0,
        forall|d: int|
            1 <= d < first_sunday(year, month) ==> #[trigger] weekday(year, month, d) != 0,
{
    lemma_weekday_runs(year, month, first_sunday(year, month));
    assert forall|d: int| 1 <= d < first_sunday(year, month) implies #[trigger] weekday(
        year,
        month,
        d,
    ) != 0 by {
        lemma_weekday_runs(year, month, d);
    }
}

fn find_first_sunday(year: i32, month: u32) -> (r: u32)
    requires
        1 <= month <= 12,
    ensures
        r == first_sunday(year as int, month as int),
        1 <= r <= 7,
{
    proof {
        lemma_first_sunday(year as int, month as int);
    }
    let mut d: u32 = 1;
    while d < 7
        invariant
            1 <= month <= 12,
            1 <= d <= first_sunday(year as int, month as int) <= 7,
            weekday(year as int, month as int, first_sunday(year as int, month as int)) == 0,
            forall|k: int|
                1 <= k < first_sunday(year as int, month as int) ==> #[trigger] weekday(
                    year as int,
                    month as int,
                    k,
                ) != 0,
        decreases 7 - d,
    {
        if day_of_week(year, month, d) == 0 {
            return d;
        }
        d = d + 1;
    }
    d
}

/// The offset of Eastern time from UTC: -4 (EDT) or -5 (EST).
pub fn et_offset(year: i32, month: u32, day: u32) -> (r: i32)
    ensures
        r == eastern_offset(year as int, month as int, day as int),
        r == -4 || r == -5,
{
    if month > 3 && month < 11 {
        return -4;
    }
    if month < 3 || month > 11 {
        return -5;
    }
    let transition: u32 = if month == 3 {
        find_first_sunday(year, 3) + 7
    } else {
        find_first_sunday(year, 11)
    };
    if month == 3 && day >= transition {
        -4
    } else if month == 11 && day < transition {
        -4
    } else {
        -5
    }
}

/// The offset of Eastern time from UTC at an hour of a UTC day.
pub fn et_offset_at(year: i32, month: u32, day: u32, hour: i32) -> (r: i32)
    ensures
        r == eastern_offset_at(year as int, month as int, day as int, hour as int),
        r == -4 || r == -5,
{
    if month == 3 && day == find_first_sunday(year, 3) + 7 {
        return if hour < 7 {
            -5
        } else {
            -4
        };
    }
    if month == 11 && day == find_first_sunday(year, 11) {
        return if hour < 6 {
            -4
        } else {
            -5
        };
    }
    et_offset(year, month, day)
}

proof fn lemma_round_up(n: int)
    ensures
        (n + 3) / 4 == n / 4 + (if n % 4 == 0 {
            0int
        } else {
            1int
        }),
        (n + 99) / 100 == n / 100 + (if n % 100 == 0 {
            0int
        } else {
            1int
        }),
        (n + 399) / 400 == n / 400 + (if n % 400 == 0 {
            0int
        } else {
            1int
        }),
{
    assert((n + 3) / 4 == n / 4 + (if n % 4 == 0 {
        0int
    } else {
        1int
    })) by (nonlinear_arith);
    assert((n + 99) / 100 == n / 100 + (if n % 100 == 0 {
        0int
    } else {
        1int
    })) by (nonlinear_arith);
    assert((n + 399) / 400 == n / 400 + (if n % 400 == 0 {
        0int
    } else {
        1int
    })) by (nonlinear_arith);
}

proof fn lemma_multiples(n: int)
    ensures
        n % 100 == 0 ==> n % 4 == 0,
        n % 400 == 0 ==> n % 100 == 0,
{
    assert(n % 100 == 0 ==> n % 4 == 0) by (nonlinear_arith);
    assert(n % 400 == 0 ==> n % 100 == 0) by (nonlinear_arith);
}

/// The leap days up to a year, counted from its start or from its end.
proof fn lemma_leap_days(year: int)
    ensures
        (year + 3) / 4 - (year + 99) / 100 + (year + 399) / 400 == year / 4 - year / 100 + year
            / 400 + (if is_leap(year) {
            0int
        } else {
            1int
        }),
{
    lemma_round_up(year);
    lemma_multiples(year);
}

/// The leap days before a year, counted up to the end of the year before it.
proof fn lemma_leap_days_before(year: int)
    ensures
        (year + 3) / 4 == (year - 1) / 4 + 1,
        (year + 99) / 100 == (year - 1) / 100 + 1,
        (year + 399) / 400 == (year - 1) / 400 + 1,
{
}

/// The days before each month of a common year; from March on a leap year has one more.
spec fn month_start(month: int) -> int {
    seq![0int, 31, 59, 90, 120, 151, 181, 212, 243, 273, 304, 334][month - 1]
}

proof fn lemma_month_start(year: int, month: int)
    requires
        1 <= month <= 12,
    ensures
        days_before_month(year, month) == month_start(month) + (if month > 2 && is_leap(year) {
            1int
        } else {
            0int
        }),
    decreases month,
{
    if month > 1 {
        lemma_month_start(year, month - 1);
    }
}

/// The term of the formula for the months, in years that start in March.
proof fn lemma_month_term(month: int)
    requires
        1 <= month <= 12,
    ensures
        month < 3 ==> (367 * (month + 10)) / 12 == month_start(month) + 336,
        month >= 3 ==> (367 * (month - 2)) / 12 == month_start(month) - 29,
{
}

/// The terms of the formula for the years, `y` being counted from 4801 BC.
proof fn lemma_year_terms(y: int)
    ensures
        (1461 * y) / 4 == 365 * y + y / 4,
        (3 * ((y + 100) / 100)) / 4 == y / 100 - y / 400,
{
    let c = (y + 100) / 100;
    assert(c == y / 100 + 1);
    assert(3 * c / 4 == c - (c + 3) / 4);
    assert((c + 3) / 4 == y / 400 + 1);
}

/// For a date, the formula counts days.
pub proof fn lemma_formula_counts_days(year: int, month: int, day: int)
    requires
        1 <= month <= 12,
    ensures
        day_number_formula(year, month, day) == day_number(year, month, day),
{
    lemma_month_start(year, month);
    lemma_month_term(month);
    if month < 3 {
        let y = year + 4799;
        lemma_year_terms(y);
        lemma_leap_days_before(year);
        assert(y / 4 == (year - 1) / 4 + 1200);
        assert(y / 100 == (year - 1) / 100 + 48);
        assert(y / 400 == (year - 1) / 400 + 12);
    } else {
        let y = year + 4800;
        lemma_year_terms(y);
        lemma_leap_days(year);
        assert(y / 4 == year / 4 + 1200);
        assert(y / 100 == year / 100 + 48);
        assert(y / 400 == year / 400 + 12);
    }
}

/// Julian Day Number for a Gregorian date.
pub fn ymd_to_jdn(y: i32, m: u32, d: u32) -> (r: i64)
    ensures
        r == day_number_formula(y as int, m as int, d as int),
        1 <= m <= 12 ==> r == day_number(y as int, m as int, d as int),
        -0x1_0000_0000_0000 < r < 0x1_0000_0000_0000,
{
    proof {
        if 1 <= m <= 12 {
            lemma_formula_counts_days(y as int, m as int, d as int);
        }
    }
    let m: i64 = m as i64;
    let d: i64 = d as i64;
    let carry: i64 = if m < 3 {
        -1
    } else if m < 14 {
        0
    } else {
        (m - 14) / 12
    };
    let y: i64 = y as i64 + 4800 + carry;
    divide(1461 * y, 4) + divide(367 * (m - 2 - 12 * carry), 12) - divide(
        3 * divide(y + 100, 100),
        4,
    ) + d - 32_075
}

/// How many days ago the given date was at `now_secs` seconds after the start of 1970, UTC.
/// Positive is past, negative is future.
pub fn days_since(now_secs: u64, yr: i32, mo: u32, dy: u32) -> (r: i64)
    requires
        now_secs <= i64::MAX,
    ensures
        r == days_ago(now_secs as int, yr as int, mo as int, dy as int),
        1 <= mo <= 12 ==> r == UNIX_EPOCH_DAY + now_secs as int
            / SECONDS_PER_DAY as int - day_number(yr as int, mo as int, dy as int),
{
    let now_days: i64 = (now_secs / SECONDS_PER_DAY) as i64;
    let today: i64 = UNIX_EPOCH_DAY + now_days;
    today - ymd_to_jdn(yr, mo, dy)
}

/// The day before a date is a date, and its day number is one less.
pub proof fn law_prev_day_steps_back_one_day(year: int, month: int, day: int)
    requires
        is_date(year, month, day),
    ensures
        ({
            let (y, m, d) = day_before(year, month, day);
            is_date(y, m, d) && day_number(y, m, d) == day_number(year, month, day) - 1
        }),
{
    if day == 1 && month == 1 {
        lemma_year_length(year - 1);
    }
}

/// Seen from any moment, the day before a date is one day further in the past.
pub proof fn law_day_before_is_one_day_older(now_secs: int, year: int, month: int, day: int)
    requires
        is_date(year, month, day),
    ensures
        ({
            let (y, m, d) = day_before(year, month, day);
            days_ago(now_secs, y, m, d) == days_ago(now_secs, year, month, day) + 1
        }),
{
    law_prev_day_steps_back_one_day(year, month, day);
    let (y, m, d) = day_before(year, month, day);
    lemma_formula_counts_days(year, month, day);
    lemma_formula_counts_days(y, m, d);
}

/// The shift of a month is the days before it, up to whole weeks.
proof fn lemma_month_shift(month: int)
    requires
        1 <= month <= 12,
    ensures
        month < 3 ==> (month_start(month) - month_shift(month) + 1_721_426) % 7 == 0,
        month >= 3 ==> (month_start(month) - month_shift(month) + 1_721_061) % 7 == 0,
{
}

/// The day of the week moves on by one with each day.
pub proof fn law_weekday_follows_day_number(year: int, month: int, day: int)
    requires
        1 <= month <= 12,
    ensures
        weekday(year, month, day) == (day_number(year, month, day) + 1) % 7,
{
    lemma_month_start(year, month);
    let y = if month < 3 {
        year - 1
    } else {
        year
    };
    if month < 3 {
        lemma_leap_days_before(year);
    } else {
        lemma_leap_days(year);
    }
    lemma_month_shift(month);
    let n = y + y / 4 - y / 100 + y / 400 + month_shift(month) + day;
    let rest = month_start(month) - month_shift(month) + if month < 3 {
        1_721_426int
    } else {
        1_721_061int
    };
    assert(day_number(year, month, day) + 1 == n + 364 * y + rest);
    assert(rest == 7 * (rest / 7));
    assert((n + 7 * (52 * y + rest / 7)) % 7 == n % 7);
}

/// In March Eastern time changes from -5 to -4 on one day, a Sunday from the 8th to the 14th; in
/// November it changes back on one day, a Sunday from the 1st to the 7th.
pub proof fn law_clocks_change_on_sundays(year: int)
    ensures
        ({
            let start = first_sunday(year, 3) + 7;
            &&& 8 <= start <= 14
            &&& weekday(year, 3, start) == 0
            &&& forall|d: int|
                #[trigger] eastern_offset(year, 3, d) == if d < start {
                    -5int
                } else {
                    -4int
                }
        }),
        ({
            let end = first_sunday(year, 11);
            &&& 1 <= end <= 7
            &&& weekday(year, 11, end) == 0
            &&& forall|d: int|
                #[trigger] eastern_offset(year, 11, d) == if d < end {
                    -4int
                } else {
                    -5int
                }
        }),
{
    lemma_first_sunday(year, 3);
    lemma_first_sunday(year, 11);
    lemma_weekday_runs(year, 3, first_sunday(year, 3));
    lemma_weekday_runs(year, 3, first_sunday(year, 3) + 7);
}

/// The offset changes at one hour of the year in March and at one in November, and the clock reads
/// 2 in the morning by the old offset then.
pub proof fn law_clocks_change_at_two(year: int, hour: int)
    ensures
        ({
            let start = first_sunday(year, 3) + 7;
            &&& eastern_offset_at(year, 3, start, hour) == if hour + eastern_offset(
                year,
                3,
                start - 1,
            ) < 2 {
                eastern_offset(year, 3, start - 1)
            } else {
                eastern_offset(year, 3, start)
            }
        }),
        ({
            let end = first_sunday(year, 11);
            &&& eastern_offset_at(year, 11, end, hour) == if hour + eastern_offset(
                year,
                11,
                end - 1,
            ) < 2 {
                eastern_offset(year, 11, end - 1)
            } else {
                eastern_offset(year, 11, end)
            }
        }),
        forall|month: int, day: int|
            !(month == 3 && day == first_sunday(year, 3) + 7) && !(month == 11 && day
                == first_sunday(year, 11)) ==> #[trigger] eastern_offset_at(year, month, day, hour)
                == eastern_offset(year, month, day),
{
}

/// A month ends before a later month begins.
proof fn lemma_months_in_order(year: int, month: int, later: int)
    requires
        1 <= month < later,
    ensures
        0 <= days_before_month(year, month),
        days_before_month(year, month) + month_length(year, month) <= days_before_month(
            year,
            later,
        ),
    decreases later,
{
    if month + 1 < later {
        lemma_months_in_order(year, month, later - 1);
    } else if month > 1 {
        lemma_months_in_order(year, month - 1, month);
    }
}

/// The days of a year.
spec fn year_length(year: int) -> int {
    if is_leap(year) {
        366
    } else {
        365
    }
}

proof fn lemma_year_length(year: int)
    ensures
        days_before_year(year + 1) == days_before_year(year) + year_length(year),
        days_before_month(year, 13) == year_length(year),
{
    lemma_month_start(year, 12);
    lemma_leap_days(year);
    lemma_leap_days_before(year + 1);
}

/// A year ends before a later year begins.
proof fn lemma_years_in_order(year: int, later: int)
    requires
        year < later,
    ensures
        days_before_year(year) + year_length(year) <= days_before_year(later),
    decreases later - year,
{
    if year + 1 < later {
        lemma_years_in_order(year, later - 1);
        lemma_year_length(later - 1);
    } else {
        lemma_year_length(year);
    }
}

/// A later date has a greater day number.
pub proof fn law_day_number_orders_dates(
    year: int,
    month: int,
    day: int,
    later_year: int,
    later_month: int,
    later_day: int,
)
    requires
        is_date(year, month, day),
        is_date(later_year, later_month, later_day),
        year < later_year || (year == later_year && (month < later_month || (month == later_month
            && day < later_day))),
    ensures
        day_number(year, month, day) < day_number(later_year, later_month, later_day),
{
    lemma_months_in_order(year, month, 13);
    lemma_months_in_order(later_year, later_month, 13);
    if year == later_year && month < later_month {
        lemma_months_in_order(year, month, later_month);
    }
    if year < later_year {
        lemma_year_length(year);
        lemma_years_in_order(year, later_year);
    }
}

/// Whatever the year, every day from April to October has daylight time at every hour, and every
/// day from December to February standard time; so have the days of months that no year has.
pub proof fn law_summer_and_winter(year: int, month: int, day: int, hour: int)
    ensures
        4 <= month <= 10 ==> eastern_offset(year, month, day) == -4 && eastern_offset_at(
            year,
            month,
            day,
            hour,
        ) == -4,
        month >= 12 || month <= 2 ==> eastern_offset(year, month, day) == -5 && eastern_offset_at(
            year,
            month,
            day,
            hour,
        ) == -5,
{
}

/// The second Sunday of March and the first Sunday of November, each told by its day of the week
/// and its week, are the days from which the offset is reckoned.
proof fn lemma_change_days(year: int, start: int, end: int)
    requires
        8 <= start <= 14,
        weekday(year, 3, start) == 0,
        1 <= end <= 7,
        weekday(year, 11, end) == 0,
    ensures
        start == first_sunday(year, 3) + 7,
        end == first_sunday(year, 11),
{
    lemma_weekday_runs(year, 3, start);
    lemma_weekday_runs(year, 11, end);
}

/// Of the days of a year, those from the second Sunday of March up to the day before the first
/// Sunday of November have daylight time, -4, and the others standard time, -5.
pub proof fn law_daylight_time_lasts_from_march_to_november(
    year: int,
    month: int,
    day: int,
    start: int,
    end: int,
)
    requires
        is_date(year, month, day),
        8 <= start <= 14,
        weekday(year, 3, start) == 0,
        1 <= end <= 7,
        weekday(year, 11, end) == 0,
    ensures
        eastern_offset(year, month, day) == if day_number(year, 3, start) <= day_number(
            year,
            month,
            day,
        ) < day_number(year, 11, end) {
            -4int
        } else {
            -5int
        },
{
    lemma_change_days(year, start, end);
    law_day_number_orders_dates(year, 3, start, year, 11, end);
    if month < 3 {
        law_day_number_orders_dates(year, month, day, year, 3, start);
    } else if month > 3 {
        law_day_number_orders_dates(year, 3, start, year, month, day);
    }
    if month < 11 {
        law_day_number_orders_dates(year, month, day, year, 11, end);
    } else if month > 11 {
        law_day_number_orders_dates(year, 11, end, year, month, day);
    }
}

/// Hour by hour: daylight time begins on the second Sunday of March at 07:00 UTC and ends on the
/// first Sunday of November at 06:00 UTC, and every hour between them has it.
pub proof fn law_daylight_time_by_the_hour(
    year: int,
    month: int,
    day: int,
    hour: int,
    start: int,
    end: int,
)
    requires
        is_date(year, month, day),
        0 <= hour < 24,
        8 <= start <= 14,
        weekday(year, 3, start) == 0,
        1 <= end <= 7,
        weekday(year, 11, end) == 0,
    ensures
        eastern_offset_at(year, month, day, hour) == if 24 * day_number(year, 3, start) + 7 <= 24
            * day_number(year, month, day) + hour < 24 * day_number(year, 11, end) + 6 {
            -4int
        } else {
            -5int
        },
{
    lemma_change_days(year, start, end);
    law_daylight_time_lasts_from_march_to_november(year, month, day, start, end);
    law_day_number_orders_dates(year, 3, start, year, 11, end);
    if month == 3 && day < start {
        law_day_number_orders_dates(year, month, day, year, 3, start);
    } else if month > 3 || (month == 3 && day > start) {
        law_day_number_orders_dates(year, 3, start, year, month, day);
    }
    if month < 11 || (month == 11 && day < end) {
        law_day_number_orders_dates(year, month, day, year, 11, end);
    } else if month > 11 || day > end {
        law_day_number_orders_dates(year, 11, end, year, month, day);
    }
}

proof fn lemma_leap_repeats(year: int)
    ensures
        is_leap(year + 400) == is_leap(year),
        days_before_year(year + 400) == days_before_year(year) + 146_097,
{
    assert((year + 400) % 4 == year % 4);
    assert((year + 400) % 100 == year % 100);
    assert((year + 400) % 400 == year % 400);
    assert((year + 403) / 4 == (year + 3) / 4 + 100);
    assert((year + 499) / 100 == (year + 99) / 100 + 4);
    assert((year + 799) / 400 == (year + 399) / 400 + 1);
}

/// The calendar repeats itself after 400 years, which have 146097 days.
pub proof fn law_calendar_repeats(year: int, month: int, day: int)
    requires
        1 <= month <= 12,
    ensures
        is_date(year + 400, month, day) <==> is_date(year, month, day),
        day_number(year + 400, month, day) == day_number(year, month, day) + 146_097,
{
    lemma_leap_repeats(year);
    lemma_month_start(year, month);
    lemma_month_start(year + 400, month);
}

/// Each month starts when the one before it has had all its days, and each year after 365 days, or
/// 366 where its February has 29.
pub proof fn law_months_and_years_follow(year: int, month: int, last: int)
    requires
        is_date(year, month, last),
        !is_date(year, month, last + 1),
    ensures
        28 <= last <= 31,
        month < 12 ==> day_number(year, month + 1, 1) == day_number(year, month, last) + 1,
        month == 12 ==> day_number(year + 1, 1, 1) == day_number(year, month, last) + 1,
        day_number(year + 1, 1, 1) - day_number(year, 1, 1) == if is_date(year, 2, 29) {
            366int
        } else {
            365int
        },
{
    lemma_year_length(year);
}

/// The formula steps with the day, and it counts the months of a year that are too many or too few
/// on from the year after or before: for January, February and the months from the fourteenth on,
/// twelve months make a year.
pub proof fn law_formula_carries_months(year: int, month: int, day: int)
    requires
        month >= 0,
    ensures
        day_number_formula(year, month, day + 1) == day_number_formula(year, month, day) + 1,
        month == 1 || month == 2 || month >= 14 ==> day_number_formula(year, month + 12, day)
            == day_number_formula(year + 1, month, day),
        day_number_formula(year, 0, day) == day_number_formula(year - 1, 12, day),
{
    if month >= 14 {
        assert((month - 2) / 12 == (month - 14) / 12 + 1);
    }
}

/// Going back a day within a month changes nothing but the day. Before the first of a month past
/// the thirteenth lies a thirtieth, and before the first of the first month a 31 December.
pub proof fn law_day_before_in_any_month(year: int, month: int, day: int)
    ensures
        day > 1 ==> day_before(year, month, day) == (year, month, day - 1),
        day <= 1 && month > 13 ==> day_before(year, month, day) == (year, month - 1, 30int),
        day <= 1 && month <= 1 ==> day_before(year, month, day) == (year - 1, 12int, 31int),
{
}

} // verus!
