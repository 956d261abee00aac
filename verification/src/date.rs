use vstd::prelude::*;
use vstd::arithmetic::div_mod::{
    lemma_fundamental_div_mod, lemma_fundamental_div_mod_converse, lemma_mod_bound,
};

verus! {

// Calendar dates are modelled as day numbers in the proleptic Gregorian
// calendar ("rata die"): day 1 is 0001-01-01, which is a Monday. Instants are
// seconds since the Unix epoch together with the fixed UTC offset in which
// their local calendar date is read.

/// Rata-die day number of 9999-12-31, the largest date a four-digit year can name.
pub const RATA_DIE_MAX: i64 = 3652059;

/// Rata-die day number of 1970-01-01 (the Unix epoch).
pub const RATA_DIE_EPOCH: i64 = 719163;

pub const SECS_PER_DAY: i64 = 86400;

/// Bound on the seconds of an instant that the library computes with;
/// roughly 142 million years on either side of the epoch.
pub const SECS_LIMIT: i64 = 0x10_0000_0000_0000;

/// Bound on a day shift applied to an instant in one step.
pub const DAY_SHIFT_LIMIT: i64 = 0x100_0000_0000;

/// Bound on the seconds of any instant handed to a date computation.
pub const SECS_WIDE_LIMIT: i64 = 0x400_0000_0000_0000;

pub open spec fn is_leap_year(y: int) -> bool {
    (y % 4 == 0 && y % 100 != 0) || y % 400 == 0
}

pub open spec fn days_in_month(y: int, m: int) -> int {
    if m == 2 {
        if is_leap_year(y) {
            29
        } else {
            28
        }
    } else if m == 4 || m == 6 || m == 9 || m == 11 {
        30
    } else {
        31
    }
}

/// Days of year `y` that lie before the first day of month `m`.
pub open spec fn days_before_month(y: int, m: int) -> int {
    let base: int = if m <= 1 {
        0
    } else if m == 2 {
        31
    } else if m == 3 {
        59
    } else if m == 4 {
        90
    } else if m == 5 {
        120
    } else if m == 6 {
        151
    } else if m == 7 {
        181
    } else if m == 8 {
        212
    } else if m == 9 {
        243
    } else if m == 10 {
        273
    } else if m == 11 {
        304
    } else {
        334
    };
    if m >= 3 && is_leap_year(y) {
        base + 1
    } else {
        base
    }
}

/// Days that lie before January 1st of year `y`, counted from day 0 = 0000-12-31.
pub open spec fn days_before_year(y: int) -> int {
    365 * (y - 1) + (y - 1) / 4 - (y - 1) / 100 + (y - 1) / 400
}

/// The rata-die day number of the calendar date `y`-`m`-`d`.
pub open spec fn rata_die(y: int, m: int, d: int) -> int {
    days_before_year(y) + days_before_month(y, m) + d
}

pub open spec fn valid_ymd(y: int, m: int, d: int) -> bool {
    1 <= y <= 9999 && 1 <= m <= 12 && 1 <= d <= days_in_month(y, m)
}

/// Weekday of a rata-die day number, 1 = Monday .. 7 = Sunday.
pub open spec fn weekday_of_day(day: int) -> int {
    (day + 6) % 7 + 1
}

/// A calendar date, stored as its rata-die day number.
#[derive(Clone, Copy, Debug, PartialEq, Eq, Structural, Hash)]
pub struct Date {
    pub day: i64,
}

/// An absolute instant: seconds since the Unix epoch, together with the fixed
/// UTC offset (in seconds) in which its local calendar date is read.
#[derive(Clone, Copy, Debug, PartialEq, Eq, Structural, Hash)]
pub struct Instant {
    pub secs: i64,
    pub offset_secs: i32,
}

proof fn lemma_div_step(n: int, k: int)
    requires
        k >= 1,
        n >= 1,
    ensures
        n / k == (n - 1) / k + (if n % k == 0 { 1int } else { 0int }),
{
    lemma_fundamental_div_mod(n, k);
    lemma_mod_bound(n, k);
    if n % k == 0 {
        assert(n - 1 == (n / k - 1) * k + (k - 1)) by (nonlinear_arith)
            requires
                n == k * (n / k) + (n % k),
                n % k == 0,
        ;
        lemma_fundamental_div_mod_converse(n - 1, k, n / k - 1, k - 1);
    } else {
        assert(n - 1 == (n / k) * k + (n % k - 1)) by (nonlinear_arith)
            requires
                n == k * (n / k) + (n % k),
        ;
        lemma_fundamental_div_mod_converse(n - 1, k, n / k, n % k - 1);
    }
}

/// A year has 365 days, or 366 when it is a leap year.
pub proof fn lemma_year_length(y: int)
    requires
        y >= 1,
    ensures
        days_before_year(y + 1) - days_before_year(y) == if is_leap_year(y) {
            366int
        } else {
            365int
        },
{
    lemma_div_step(y, 4);
    lemma_div_step(y, 100);
    lemma_div_step(y, 400);
    if y % 400 == 0 {
        lemma_mod_multiple_implies(y, 400, 4);
        lemma_mod_multiple_implies(y, 400, 100);
    }
    if y % 100 == 0 {
        lemma_mod_multiple_implies(y, 100, 4);
    }
}

proof fn lemma_mod_multiple_implies(n: int, k: int, j: int)
    requires
        n >= 1,
        k >= 1,
        j >= 1,
        k % j == 0,
        n % k == 0,
    ensures
        n % j == 0,
{
    lemma_fundamental_div_mod(n, k);
    lemma_fundamental_div_mod(k, j);
    assert(n == (j * (k / j)) * (n / k)) by {
        assert(n == k * (n / k));
        assert(k == j * (k / j));
    }
    assert(n == j * ((k / j) * (n / k))) by (nonlinear_arith)
        requires
            n == (j * (k / j)) * (n / k),
    ;
    lemma_fundamental_div_mod_converse(n, j, (k / j) * (n / k), 0);
}

pub proof fn lemma_days_before_year_monotone(y1: int, y2: int)
    requires
        1 <= y1 <= y2,
    ensures
        days_before_year(y1) <= days_before_year(y2),
    decreases y2 - y1,
{
    if y1 < y2 {
        lemma_year_length(y2 - 1);
        lemma_days_before_year_monotone(y1, y2 - 1);
    }
}

pub proof fn lemma_rata_die_bounds(y: int, m: int, d: int)
    requires
        valid_ymd(y, m, d),
    ensures
        1 <= rata_die(y, m, d) <= RATA_DIE_MAX,
{
    lemma_days_before_year_monotone(1, y);
    if y == 9999 {
        assert(days_before_year(9999) == 3651694);
    } else {
        lemma_days_before_year_monotone(y, 9998);
        assert(days_before_year(9998) == 3651329);
    }
}


proof fn lemma_dbm_step(y: int, m: int)
    requires
        1 <= m <= 12,
    ensures
        days_before_month(y, m) + days_in_month(y, m) == if m == 12 {
            365 + if is_leap_year(y) {
                1int
            } else {
                0int
            }
        } else {
            days_before_month(y, m + 1)
        },
{
}

proof fn lemma_dbm_monotone(y: int, a: int, b: int)
    requires
        1 <= a <= b <= 12,
    ensures
        days_before_month(y, a) <= days_before_month(y, b),
    decreases b - a,
{
    if a < b {
        lemma_dbm_monotone(y, a, b - 1);
        lemma_dbm_step(y, b - 1);
    }
}

/// A rata-die day number names at most one valid calendar date.
pub proof fn lemma_civil_unique(y1: int, m1: int, d1: int, y2: int, m2: int, d2: int)
    requires
        valid_ymd(y1, m1, d1),
        valid_ymd(y2, m2, d2),
        rata_die(y1, m1, d1) == rata_die(y2, m2, d2),
    ensures
        y1 == y2,
        m1 == m2,
        d1 == d2,
{
    lemma_rata_year_bounds(y1, m1, d1);
    lemma_rata_year_bounds(y2, m2, d2);
    if y1 < y2 {
        lemma_days_before_year_monotone(y1 + 1, y2);
        assert(rata_die(y1, m1, d1) < rata_die(y2, m2, d2));
    } else if y2 < y1 {
        lemma_days_before_year_monotone(y2 + 1, y1);
        assert(rata_die(y2, m2, d2) < rata_die(y1, m1, d1));
    }
    if m1 < m2 {
        lemma_dbm_step(y1, m1);
        lemma_dbm_monotone(y1, m1 + 1, m2);
        assert(rata_die(y1, m1, d1) < rata_die(y2, m2, d2));
    } else if m2 < m1 {
        lemma_dbm_step(y1, m2);
        lemma_dbm_monotone(y1, m2 + 1, m1);
        assert(rata_die(y2, m2, d2) < rata_die(y1, m1, d1));
    }
}

/// A valid date's day number lies between its year's first and last days.
proof fn lemma_rata_year_bounds(y: int, m: int, d: int)
    requires
        valid_ymd(y, m, d),
    ensures
        days_before_year(y) + 1 <= rata_die(y, m, d) <= days_before_year(y + 1),
{
    lemma_year_length(y);
    lemma_dbm_monotone(y, 1, m);
    lemma_dbm_step(y, m);
    if m < 12 {
        lemma_dbm_monotone(y, m + 1, 12);
        lemma_dbm_step(y, 12);
    }
}

/// The one valid calendar triple of a day number that names a date.
pub open spec fn civil_of_day(day: int) -> (int, int, int) {
    choose|t: (int, int, int)| valid_ymd(t.0, t.1, t.2) && rata_die(t.0, t.1, t.2) == day
}

fn is_leap_year_exec(y: u32) -> (r: bool)
    ensures
        r == is_leap_year(y as int),
{
    (y % 4 == 0 && y % 100 != 0) || y % 400 == 0
}

fn days_in_month_exec(y: u32, m: u32) -> (r: u32)
    ensures
        r == days_in_month(y as int, m as int),
{
    if m == 2 {
        if is_leap_year_exec(y) {
            29
        } else {
            28
        }
    } else if m == 4 || m == 6 || m == 9 || m == 11 {
        30
    } else {
        31
    }
}

fn days_before_month_exec(y: u32, m: u32) -> (r: u32)
    requires
        1 <= m <= 12,
    ensures
        r == days_before_month(y as int, m as int),
{
    let base: u32 = if m <= 1 {
        0
    } else if m == 2 {
        31
    } else if m == 3 {
        59
    } else if m == 4 {
        90
    } else if m == 5 {
        120
    } else if m == 6 {
        151
    } else if m == 7 {
        181
    } else if m == 8 {
        212
    } else if m == 9 {
        243
    } else if m == 10 {
        273
    } else if m == 11 {
        304
    } else {
        334
    };
    if m >= 3 && is_leap_year_exec(y) {
        base + 1
    } else {
        base
    }
}

fn days_before_year_exec(y: u32) -> (r: u64)
    requires
        1 <= y <= 10000,
    ensures
        r == days_before_year(y as int),
{
    let n = (y - 1) as u64;
    365 * n + n / 4 - n / 100 + n / 400
}

/// The rata-die day number of a valid calendar date.
pub fn days_from_ymd(y: u32, m: u32, d: u32) -> (r: i64)
    requires
        valid_ymd(y as int, m as int, d as int),
    ensures
        r == rata_die(y as int, m as int, d as int),
        1 <= r <= RATA_DIE_MAX,
{
    proof {
        lemma_rata_die_bounds(y as int, m as int, d as int);
    }
    let by = days_before_year_exec(y);
    let bm = days_before_month_exec(y, m);
    (by + bm as u64 + d as u64) as i64
}

/// The calendar date of a rata-die day number: the inverse of `days_from_ymd`.
pub fn days_to_ymd(day: i64) -> (r: (u32, u32, u32))
    requires
        1 <= day <= RATA_DIE_MAX,
    ensures
        valid_ymd(r.0 as int, r.1 as int, r.2 as int),
        rata_die(r.0 as int, r.1 as int, r.2 as int) == day,
        civil_of_day(day as int) == (r.0 as int, r.1 as int, r.2 as int),
{
    let dayu = day as u64;
    let mut y: u32 = 1;
    loop
        invariant_except_break
            1 <= y <= 9999,
            days_before_year(y as int) < dayu,
            dayu == day,
            1 <= day <= RATA_DIE_MAX,
        ensures
            1 <= y <= 9999,
            days_before_year(y as int) < dayu,
            dayu <= days_before_year(y as int + 1),
            dayu == day,
        decreases 9999 - y,
    {
        if y >= 9999 {
            proof {
                assert(days_before_year(10000) == RATA_DIE_MAX);
            }
            break;
        }
        let nb = days_before_year_exec(y + 1);
        if dayu <= nb {
            break;
        }
        y = y + 1;
    }
    let by = days_before_year_exec(y);
    let rem = (dayu - by) as u32;
    proof {
        lemma_year_length(y as int);
    }
    let mut m: u32 = 1;
    loop
        invariant_except_break
            1 <= m <= 12,
            days_before_month(y as int, m as int) < rem,
            1 <= y <= 9999,
            rem == dayu - days_before_year(y as int),
            dayu <= days_before_year(y as int + 1),
            days_before_year(y as int + 1) - days_before_year(y as int) == 365 + (
            if is_leap_year(y as int) {
                1int
            } else {
                0int
            }),
        ensures
            1 <= m <= 12,
            days_before_month(y as int, m as int) < rem,
            rem - days_before_month(y as int, m as int) <= days_in_month(y as int, m as int),
            rem == dayu - days_before_year(y as int),
        decreases 12 - m,
    {
        if m >= 12 {
            break;
        }
        let nb = days_before_month_exec(y, m + 1);
        if rem <= nb {
            break;
        }
        m = m + 1;
    }
    let bm = days_before_month_exec(y, m);
    let d = rem - bm;
    (y, m, d)
}

/// Weekday of a nonnegative day number, 1 = Monday .. 7 = Sunday.
pub fn weekday_from_day(day: i64) -> (w: u32)
    requires
        day >= 0,
    ensures
        w == weekday_of_day(day as int),
        1 <= w <= 7,
{
    (((day as u64) + 6) % 7 + 1) as u32
}

/// Euclidean division by a positive divisor (the quotient rounds toward
/// negative infinity).
pub fn floor_div(n: i64, d: i64) -> (q: i64)
    requires
        1 <= d,
        -SECS_WIDE_LIMIT <= n <= SECS_WIDE_LIMIT,
        d <= SECS_WIDE_LIMIT,
    ensures
        q == n as int / d as int,
{
    if n >= 0 {
        let qu = (n as u64) / (d as u64);
        proof {
            assert(qu == n as int / d as int);
        }
        qu as i64
    } else {
        let p = (-(n + 1)) as u64;
        let a = p / (d as u64);
        proof {
            lemma_fundamental_div_mod(p as int, d as int);
            lemma_mod_bound(p as int, d as int);
            assert(n as int == (-(a as int) - 1) * d + (d - 1 - (p as int % d as int)))
                by (nonlinear_arith)
                requires
                    p as int == d * (a as int) + (p as int % d as int),
                    n as int == -(p as int) - 1,
            ;
            lemma_fundamental_div_mod_converse(
                n as int,
                d as int,
                -(a as int) - 1,
                d - 1 - (p as int % d as int),
            );
        }
        -(a as i64) - 1
    }
}

impl Date {
    /// The date for a calendar year, month and day, or `None` when those do
    /// not name a real date with a four-digit year.
    pub fn from_ymd(y: u32, m: u32, d: u32) -> (r: Option<Date>)
        ensures
            match r {
                Some(date) => valid_ymd(y as int, m as int, d as int) && date.day == rata_die(
                    y as int,
                    m as int,
                    d as int,
                ),
                None => !valid_ymd(y as int, m as int, d as int),
            },
    {
        if 1 <= y && y <= 9999 && 1 <= m && m <= 12 && 1 <= d && d <= days_in_month_exec(y, m) {
            Some(Date { day: days_from_ymd(y, m, d) })
        } else {
            None
        }
    }

    /// The calendar year, month and day of this date.
    pub fn to_ymd(&self) -> (r: (u32, u32, u32))
        requires
            1 <= self.day <= RATA_DIE_MAX,
        ensures
            valid_ymd(r.0 as int, r.1 as int, r.2 as int),
            rata_die(r.0 as int, r.1 as int, r.2 as int) == self.day,
    {
        days_to_ymd(self.day)
    }

    /// Weekday of this date, 1 = Monday .. 7 = Sunday.
    pub fn weekday_number(&self) -> (w: u32)
        requires
            self.day >= 0,
        ensures
            w == weekday_of_day(self.day as int),
            1 <= w <= 7,
    {
        weekday_from_day(self.day)
    }
}

impl Instant {
    /// Whether this instant lies within the range the library computes on.
    pub open spec fn time_ok(self) -> bool {
        -SECS_LIMIT <= self.secs <= SECS_LIMIT
    }

    /// The rata-die day number of this instant's local calendar date.
    pub open spec fn local_day(self) -> int {
        (self.secs + self.offset_secs) / (SECS_PER_DAY as int) + RATA_DIE_EPOCH
    }

    /// The local calendar date of this instant.
    pub fn date_naive(&self) -> (d: Date)
        requires
            -SECS_WIDE_LIMIT + 0x1_0000_0000 <= self.secs <= SECS_WIDE_LIMIT - 0x1_0000_0000,
        ensures
            d.day == self.local_day(),
    {
        let q = floor_div(self.secs + self.offset_secs as i64, SECS_PER_DAY);
        Date { day: q + RATA_DIE_EPOCH }
    }

    /// This instant shifted by a number of days; the offset is kept.
    pub fn plus_days(self, days: i64) -> (r: Instant)
        requires
            -SECS_WIDE_LIMIT <= self.secs + days * (SECS_PER_DAY as int) <= SECS_WIDE_LIMIT,
            -DAY_SHIFT_LIMIT <= days <= DAY_SHIFT_LIMIT,
            -SECS_WIDE_LIMIT <= self.secs <= SECS_WIDE_LIMIT,
        ensures
            r.secs == self.secs + days * (SECS_PER_DAY as int),
            r.offset_secs == self.offset_secs,
    {
        Instant { secs: self.secs + days * SECS_PER_DAY, offset_secs: self.offset_secs }
    }

    /// This instant shifted by a number of weeks; the offset is kept.
    pub fn plus_weeks(self, weeks: i64) -> (r: Instant)
        requires
            -SECS_WIDE_LIMIT <= self.secs + weeks * 7 * (SECS_PER_DAY as int) <= SECS_WIDE_LIMIT,
            -DAY_SHIFT_LIMIT <= weeks * 7 <= DAY_SHIFT_LIMIT,
            -SECS_WIDE_LIMIT <= self.secs <= SECS_WIDE_LIMIT,
        ensures
            r.secs == self.secs + weeks * 7 * (SECS_PER_DAY as int),
            r.offset_secs == self.offset_secs,
    {
        Instant { secs: self.secs + weeks * 7 * SECS_PER_DAY, offset_secs: self.offset_secs }
    }

    /// The instant at the given local calendar date and time of day, read in
    /// the given fixed UTC offset.
    pub fn from_ymd_hms(y: u32, mo: u32, d: u32, h: u32, mi: u32, s: u32, offset_secs: i32) -> (r:
        Option<Instant>)
        ensures
            match r {
                Some(t) => {
                    &&& valid_ymd(y as int, mo as int, d as int)
                    &&& h <= 23 && mi <= 59 && s <= 59
                    &&& t.secs == (rata_die(y as int, mo as int, d as int) - RATA_DIE_EPOCH) * (
                    SECS_PER_DAY as int) + h * 3600 + mi * 60 + s - offset_secs
                    &&& t.offset_secs == offset_secs
                    &&& t.time_ok()
                    &&& t.local_day() == rata_die(y as int, mo as int, d as int)
                },
                None => !(valid_ymd(y as int, mo as int, d as int) && h <= 23 && mi <= 59 && s
                    <= 59),
            },
    {
        if h <= 23 && mi <= 59 && s <= 59 {
            match Date::from_ymd(y, mo, d) {
                Some(date) => {
                    let day_secs = (date.day - RATA_DIE_EPOCH) * SECS_PER_DAY;
                    let tod = (h * 3600 + mi * 60 + s) as i64;
                    let t = Instant { secs: day_secs + tod - offset_secs as i64, offset_secs };
                    proof {
                        let day = date.day as int;
                        lemma_fundamental_div_mod_converse(
                            t.secs + t.offset_secs,
                            SECS_PER_DAY as int,
                            day - RATA_DIE_EPOCH,
                            h * 3600 + mi * 60 + s,
                        );
                    }
                    Some(t)
                },
                None => None,
            }
        } else {
            None
        }
    }
}

} // verus!
