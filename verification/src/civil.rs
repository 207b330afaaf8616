//! Proleptic Gregorian calendar arithmetic on integers.
//!
//! Days are counted from the Unix epoch (1970-01-01 is day 0); milliseconds
//! likewise. Everything here is pure integer math.

use vstd::prelude::*;

use crate::arith::{floor_div, floor_mod, trunc_div};

verus! {

pub const MS_PER_SEC: i64 = 1_000;
pub const MS_PER_MIN: i64 = 60_000;
pub const MS_PER_HOUR: i64 = 3_600_000;
pub const MS_PER_DAY: i64 = 86_400_000;

/// Largest year magnitude for which the day count of a date is computed.
pub const MAX_CIVIL_YEAR: i64 = 25_000_000_000_000_000;

/// Largest day-count magnitude accepted when decomposing a day number.
pub const MAX_CIVIL_DAYS: i64 = 9_000_000_000_000_000_000;

// ---- specifications ----------------------------------------------------

pub open spec fn spec_is_leap(y: int) -> bool {
    (y % 4 == 0 && y % 100 != 0) || y % 400 == 0
}

pub open spec fn spec_days_in_month(y: int, m: int) -> int {
    if m == 1 || m == 3 || m == 5 || m == 7 || m == 8 || m == 10 || m == 12 {
        31
    } else if m == 4 || m == 6 || m == 9 || m == 11 {
        30
    } else if m == 2 {
        if spec_is_leap(y) {
            29
        } else {
            28
        }
    } else {
        0
    }
}

pub open spec fn spec_days_in_year(y: int) -> int {
    if spec_is_leap(y) {
        366
    } else {
        365
    }
}

/// Day of the 400-year era (March-based years) of a date, Hinnant's scheme.
pub open spec fn spec_day_of_era(yoe: int, m: int, d: int) -> int {
    let mp = if m > 2 { m - 3 } else { m + 9 };
    let doy = trunc_div(153 * mp + 2, 5) + d - 1;
    yoe * 365 + yoe / 4 - yoe / 100 + doy
}

/// Days since 1970-01-01 of the civil date `(y, m, d)`.
pub open spec fn spec_days_from_civil(y: int, m: int, d: int) -> int {
    let yy = if m <= 2 { y - 1 } else { y };
    let era = yy / 400;
    let yoe = yy - era * 400;
    era * 146097 + spec_day_of_era(yoe, m, d) - 719468
}

/// The civil date `(y, m, d)` of day number `z` (days since 1970-01-01).
pub open spec fn spec_civil_from_days(z: int) -> (int, int, int) {
    let zz = z + 719468;
    let era = zz / 146097;
    let doe = zz - era * 146097;
    let yoe = (doe - doe / 1460 + doe / 36524 - doe / 146096) / 365;
    let y = yoe + era * 400;
    let doy = doe - (365 * yoe + yoe / 4 - yoe / 100);
    let mp = (5 * doy + 2) / 153;
    let d = doy - (153 * mp + 2) / 5 + 1;
    let m = if mp < 10 { mp + 3 } else { mp - 9 };
    (if m <= 2 { y + 1 } else { y }, m, d)
}

pub open spec fn spec_iso_weekday(days: int) -> int {
    (days + 3) % 7 + 1
}

pub open spec fn spec_day_of_year(y: int, m: int, d: int) -> int {
    spec_days_from_civil(y, m, d) - spec_days_from_civil(y, 1, 1) + 1
}

pub open spec fn spec_quarter_of_month(m: int) -> int {
    trunc_div(m - 1, 3) + 1
}

pub open spec fn spec_quarter_start_month(q: int) -> int {
    (q - 1) * 3 + 1
}

pub open spec fn spec_days_in_quarter(y: int, q: int) -> int {
    let sm = spec_quarter_start_month(q);
    spec_days_in_month(y, sm) + spec_days_in_month(y, sm + 1) + spec_days_in_month(y, sm + 2)
}

pub open spec fn spec_day_of_quarter(y: int, m: int, d: int) -> int {
    let q = spec_quarter_of_month(m);
    spec_day_of_year(y, m, d) - spec_day_of_year(y, spec_quarter_start_month(q), 1) + 1
}

pub open spec fn iso_year_marker(y: int) -> int {
    (y + y / 4 - y / 100 + y / 400) % 7
}

pub open spec fn spec_weeks_in_iso_year(y: int) -> int {
    if iso_year_marker(y) == 4 || iso_year_marker(y - 1) == 3 {
        53
    } else {
        52
    }
}

pub open spec fn spec_iso_week(y: int, m: int, d: int) -> (int, int) {
    let wd = spec_iso_weekday(spec_days_from_civil(y, m, d));
    let week = trunc_div(spec_day_of_year(y, m, d) - wd + 10, 7);
    if week < 1 {
        (y - 1, spec_weeks_in_iso_year(y - 1))
    } else if week > spec_weeks_in_iso_year(y) {
        (y + 1, 1)
    } else {
        (y, week)
    }
}

/// A date is real: month 1-12 and day within the month.
pub open spec fn valid_civil(y: int, m: int, d: int) -> bool {
    1 <= m <= 12 && 1 <= d <= spec_days_in_month(y, m)
}

/// Magnitudes for which the day count of a date stays far inside `i64`.
pub open spec fn civil_in_range(y: int, m: int, d: int) -> bool {
    -MAX_CIVIL_YEAR <= y <= MAX_CIVIL_YEAR && -1_000_000_000 <= m <= 1_000_000_000
        && -1_000_000_000 <= d <= 1_000_000_000
}

// ---- executable ----------------------------------------------------------

/// Is `y` a leap year in the proleptic Gregorian calendar?
pub fn is_leap(y: i64) -> (r: bool)
    ensures
        r == spec_is_leap(y as int),
{
    (floor_mod(y, 4) == 0 && floor_mod(y, 100) != 0) || floor_mod(y, 400) == 0
}

/// Number of days in month `m` (1-12) of year `y`; 0 for any other month.
pub fn days_in_month(y: i64, m: i64) -> (r: i64)
    ensures
        r == spec_days_in_month(y as int, m as int),
{
    if m == 1 || m == 3 || m == 5 || m == 7 || m == 8 || m == 10 || m == 12 {
        31
    } else if m == 4 || m == 6 || m == 9 || m == 11 {
        30
    } else if m == 2 {
        if is_leap(y) {
            29
        } else {
            28
        }
    } else {
        0
    }
}

pub fn days_in_year(y: i64) -> (r: i64)
    ensures
        r == spec_days_in_year(y as int),
{
    if is_leap(y) {
        366
    } else {
        365
    }
}

/// Days since 1970-01-01 for the given civil date (Howard Hinnant's algorithm).
pub fn days_from_civil(y: i64, m: i64, d: i64) -> (r: i64)
    requires
        civil_in_range(y as int, m as int, d as int),
    ensures
        r == spec_days_from_civil(y as int, m as int, d as int),
{
    let yy = if m <= 2 { y - 1 } else { y };
    let era = floor_div(yy, 400);
    let yoe = yy - era * 400;
    let mp = if m > 2 { m - 3 } else { m + 9 };
    let doy = (153 * mp + 2) / 5 + d - 1;
    let doe = yoe * 365 + yoe / 4 - yoe / 100 + doy;
    proof {
        vstd::arithmetic::div_mod::lemma_fundamental_div_mod(yy as int, 400);
    }
    era * 146097 + doe - 719468
}

/// Civil date (y, m, d) from days since 1970-01-01.
pub fn civil_from_days(z: i64) -> (r: (i64, i64, i64))
    requires
        -MAX_CIVIL_DAYS <= z <= MAX_CIVIL_DAYS,
    ensures
        (r.0 as int, r.1 as int, r.2 as int) == spec_civil_from_days(z as int),
{
    let zz = z + 719468;
    let era = floor_div(zz, 146097);
    let doe = zz - era * 146097;
    proof {
        vstd::arithmetic::div_mod::lemma_fundamental_div_mod(zz as int, 146097);
    }
    let yoe = (doe - doe / 1460 + doe / 36524 - doe / 146096) / 365;
    let y = yoe + era * 400;
    let doy = doe - (365 * yoe + yoe / 4 - yoe / 100);
    let mp = (5 * doy + 2) / 153;
    let d = doy - (153 * mp + 2) / 5 + 1;
    let m = if mp < 10 { mp + 3 } else { mp - 9 };
    (if m <= 2 { y + 1 } else { y }, m, d)
}

/// ISO weekday: Monday = 1 ... Sunday = 7 (1970-01-01, day 0, is a Thursday).
pub fn iso_weekday(days: i64) -> (r: i64)
    requires
        days <= i64::MAX - 3,
    ensures
        r == spec_iso_weekday(days as int),
        1 <= r <= 7,
{
    floor_mod(days + 3, 7) + 1
}

/// Day of year, 1-based.
pub fn day_of_year(y: i64, m: i64, d: i64) -> (r: i64)
    requires
        civil_in_range(y as int, m as int, d as int),
    ensures
        r == spec_day_of_year(y as int, m as int, d as int),
{
    days_from_civil(y, m, d) - days_from_civil(y, 1, 1) + 1
}

pub fn quarter_of_month(m: i64) -> (r: i64)
    requires
        m > i64::MIN,
    ensures
        r == spec_quarter_of_month(m as int),
{
    (m - 1) / 3 + 1
}

pub fn quarter_start_month(q: i64) -> (r: i64)
    requires
        -1_000_000_000_000 <= q <= 1_000_000_000_000,
    ensures
        r == spec_quarter_start_month(q as int),
{
    (q - 1) * 3 + 1
}

pub fn days_in_quarter(y: i64, q: i64) -> (r: i64)
    requires
        -1_000_000_000_000 <= q <= 1_000_000_000_000,
    ensures
        r == spec_days_in_quarter(y as int, q as int),
{
    let sm = quarter_start_month(q);
    days_in_month(y, sm) + days_in_month(y, sm + 1) + days_in_month(y, sm + 2)
}

/// Day within the quarter, 1-based.
pub fn day_of_quarter(y: i64, m: i64, d: i64) -> (r: i64)
    requires
        civil_in_range(y as int, m as int, d as int),
    ensures
        r == spec_day_of_quarter(y as int, m as int, d as int),
{
    let q = quarter_of_month(m);
    day_of_year(y, m, d) - day_of_year(y, quarter_start_month(q), 1) + 1
}

fn iso_year_marker_of(y: i64) -> (r: i64)
    requires
        -MAX_CIVIL_YEAR <= y <= MAX_CIVIL_YEAR,
    ensures
        r == iso_year_marker(y as int),
{
    floor_mod(y + floor_div(y, 4) - floor_div(y, 100) + floor_div(y, 400), 7)
}

/// Number of ISO weeks (52 or 53) in ISO week-year `y`.
pub fn weeks_in_iso_year(y: i64) -> (r: i64)
    requires
        -MAX_CIVIL_YEAR + 1 <= y <= MAX_CIVIL_YEAR,
    ensures
        r == spec_weeks_in_iso_year(y as int),
{
    if iso_year_marker_of(y) == 4 || iso_year_marker_of(y - 1) == 3 {
        53
    } else {
        52
    }
}

/// ISO week-date: returns (week_year, week_number).
pub fn iso_week(y: i64, m: i64, d: i64) -> (r: (i64, i64))
    requires
        -MAX_CIVIL_YEAR + 2 <= y <= MAX_CIVIL_YEAR - 1,
        valid_civil(y as int, m as int, d as int),
    ensures
        (r.0 as int, r.1 as int) == spec_iso_week(y as int, m as int, d as int),
{
    let days = days_from_civil(y, m, d);
    let wd = iso_weekday(days);
    let doy = day_of_year(y, m, d);
    let week = (doy - wd + 10) / 7;
    if week < 1 {
        (y - 1, weeks_in_iso_year(y - 1))
    } else if week > weeks_in_iso_year(y) {
        (y + 1, 1)
    } else {
        (y, week)
    }
}


/// Bound on the day count of a date, linear in its fields.
pub proof fn lemma_days_from_civil_bound(y: int, m: int, d: int)
    requires
        civil_in_range(y, m, d),
    ensures
        spec_days_from_civil(y, m, d) <= 366 * (if y >= 0 { y } else { -y }) + 31 * (if m >= 0 {
            m
        } else {
            -m
        }) + (if d >= 0 { d } else { -d }) + 2_000_000,
        spec_days_from_civil(y, m, d) >= -366 * (if y >= 0 { y } else { -y }) - 31 * (if m
            >= 0 {
            m
        } else {
            -m
        }) - (if d >= 0 { d } else { -d }) - 2_000_000,
{
    let yy = if m <= 2 { y - 1 } else { y };
    let era = yy / 400;
    let yoe = yy - era * 400;
    vstd::arithmetic::div_mod::lemma_fundamental_div_mod(yy, 400);
    let mp = if m > 2 { m - 3 } else { m + 9 };
    let t = 153 * mp + 2;
    assert(trunc_div(t, 5) <= 31 * (if mp >= 0 { mp } else { -mp }) + 1);
    assert(trunc_div(t, 5) >= -31 * (if mp >= 0 { mp } else { -mp }) - 1);
    assert(yoe / 4 <= 100 && yoe / 100 <= 4);
    assert(era * 146097 <= 366 * (if y >= 0 { y } else { -y }) + 146097) by (nonlinear_arith)
        requires
            era * 400 <= yy,
            yy == y || yy == y - 1,
    ;
    assert(era * 146097 >= -366 * (if y >= 0 { y } else { -y }) - 2 * 146097) by (nonlinear_arith)
        requires
            yy < era * 400 + 400,
            yy == y || yy == y - 1,
    ;
}

/// A naive (zoneless) local wall-clock date-time.
///
/// Used for cadence occurrence windows and bounds spans, which are local
/// wall-clock intervals never resolved to an instant.
#[derive(Clone, Copy, Debug, PartialEq, Eq)]
pub struct Naive {
    pub y: i64,
    pub mo: i64,
    pub d: i64,
    pub h: i64,
    pub mi: i64,
    pub s: i64,
    pub ms: i64,
}

/// Largest year magnitude of a [`Naive`] whose ordinal is computed.
pub const MAX_NAIVE_YEAR: i64 = 290_000_000;

impl Naive {
    /// Field magnitudes for which the naive ordinal fits in `i64`.
    pub open spec fn in_range(self) -> bool {
        &&& -MAX_NAIVE_YEAR <= self.y <= MAX_NAIVE_YEAR
        &&& -1000 <= self.mo <= 1000
        &&& -100_000 <= self.d <= 100_000
        &&& -1_000_000 <= self.h <= 1_000_000
        &&& -100_000_000 <= self.mi <= 100_000_000
        &&& -1_000_000_000 <= self.s <= 1_000_000_000
        &&& -1_000_000_000_000 <= self.ms <= 1_000_000_000_000
    }

    /// A real calendar date with a time of day on the clock.
    pub open spec fn is_valid(self) -> bool {
        &&& valid_civil(self.y as int, self.mo as int, self.d as int)
        &&& 0 <= self.h < 24
        &&& 0 <= self.mi < 60
        &&& 0 <= self.s < 60
        &&& 0 <= self.ms < 1000
    }

    /// The naive ordinal in milliseconds (the civil date read as if UTC).
    pub open spec fn spec_ordinal_ms(self) -> int {
        spec_days_from_civil(self.y as int, self.mo as int, self.d as int) * MS_PER_DAY + self.h
            * MS_PER_HOUR + self.mi * MS_PER_MIN + self.s * MS_PER_SEC + self.ms
    }

    pub open spec fn spec_from_ordinal_ms(v: int) -> Naive {
        let days = v / (MS_PER_DAY as int);
        let rem = v % (MS_PER_DAY as int);
        let c = spec_civil_from_days(days);
        Naive {
            y: c.0 as i64,
            mo: c.1 as i64,
            d: c.2 as i64,
            h: (rem / (MS_PER_HOUR as int)) as i64,
            mi: ((rem % (MS_PER_HOUR as int)) / (MS_PER_MIN as int)) as i64,
            s: ((rem % (MS_PER_MIN as int)) / (MS_PER_SEC as int)) as i64,
            ms: (rem % (MS_PER_SEC as int)) as i64,
        }
    }

    pub open spec fn spec_add_days(self, n: int) -> Naive {
        let c = spec_civil_from_days(spec_days_from_civil(self.y as int, self.mo as int, self.d as int) + n);
        Naive { y: c.0 as i64, mo: c.1 as i64, d: c.2 as i64, ..self }
    }

    pub open spec fn spec_add_months_constrain(self, n: int) -> Naive {
        let total = self.y * 12 + (self.mo - 1) + n;
        let y = total / 12;
        let mo = total % 12 + 1;
        let dim = spec_days_in_month(y, mo);
        Naive { y: y as i64, mo: mo as i64, d: (if self.d <= dim { self.d as int } else { dim }) as i64, ..self }
    }

    pub open spec fn spec_add_years_constrain(self, n: int) -> Naive {
        let y = self.y + n;
        let dim = spec_days_in_month(y, self.mo as int);
        Naive { y: y as i64, d: (if self.d <= dim { self.d as int } else { dim }) as i64, ..self }
    }

    pub fn new(y: i64, mo: i64, d: i64, h: i64, mi: i64, s: i64, ms: i64) -> (r: Naive)
        ensures
            r == (Naive { y, mo, d, h, mi, s, ms }),
    {
        Naive { y, mo, d, h, mi, s, ms }
    }

    /// Naive ordinal in milliseconds (civil date treated as if UTC). This is a
    /// monotonic key for wall-clock comparison; DST is deliberately ignored.
    pub fn ordinal_ms(&self) -> (r: i64)
        requires
            self.in_range() || (self.is_valid() && i64::MIN <= spec_days_from_civil(
                self.y as int,
                self.mo as int,
                self.d as int,
            ) * MS_PER_DAY && self.spec_ordinal_ms() <= i64::MAX),
        ensures
            r == self.spec_ordinal_ms(),
    {
        proof {
            if !self.in_range() {
                let z = spec_days_from_civil(self.y as int, self.mo as int, self.d as int);
                lemma_civil_from_days_from_civil(self.y as int, self.mo as int, self.d as int);
                lemma_civil_year_bound(z);
                assert(-200_000_000_000 <= z <= 200_000_000_000);
                assert(-600_000_000 <= self.y <= 600_000_000);
            }
            lemma_days_from_civil_bound(self.y as int, self.mo as int, self.d as int);
        }
        days_from_civil(self.y, self.mo, self.d) * MS_PER_DAY + self.h * MS_PER_HOUR + self.mi
            * MS_PER_MIN + self.s * MS_PER_SEC + self.ms
    }

    /// Decompose a naive ordinal-ms back into fields.
    pub fn from_ordinal_ms(v: i64) -> (r: Naive)
        ensures
            r == Naive::spec_from_ordinal_ms(v as int),
    {
        let days = floor_div(v, MS_PER_DAY);
        let rem = floor_mod(v, MS_PER_DAY);
        let (y, mo, d) = civil_from_days(days);
        Naive {
            y,
            mo,
            d,
            h: rem / MS_PER_HOUR,
            mi: (rem % MS_PER_HOUR) / MS_PER_MIN,
            s: (rem % MS_PER_MIN) / MS_PER_SEC,
            ms: rem % MS_PER_SEC,
        }
    }

    /// Add days, keeping the time of day (naive).
    #[verifier::spinoff_prover]
    pub fn add_days(&self, n: i64) -> (r: Naive)
        requires
            civil_in_range(self.y as int, self.mo as int, self.d as int),
            -MAX_CIVIL_DAYS / 2 <= n <= MAX_CIVIL_DAYS / 2,
            -MAX_CIVIL_DAYS / 2 <= spec_days_from_civil(self.y as int, self.mo as int, self.d as int) <= MAX_CIVIL_DAYS / 2,
        ensures
            r == self.spec_add_days(n as int),
    {
        let z = days_from_civil(self.y, self.mo, self.d) + n;
        let (y, mo, d) = civil_from_days(z);
        proof {
            let c = spec_civil_from_days(z as int);
            assert(c.0 == y as int && c.1 == mo as int && c.2 == d as int);
        }
        Naive { y, mo, d, ..*self }
    }

    /// Add `n` months with `constrain` overflow (clamp day to month length).
    pub fn add_months_constrain(&self, n: i64) -> (r: Naive)
        requires
            -MAX_CIVIL_YEAR <= self.y <= MAX_CIVIL_YEAR,
            -1_000_000_000 <= self.mo <= 1_000_000_000,
            -MAX_CIVIL_YEAR <= n <= MAX_CIVIL_YEAR,
        ensures
            r == self.spec_add_months_constrain(n as int),
    {
        let total = self.y * 12 + (self.mo - 1) + n;
        let y = floor_div(total, 12);
        let mo = floor_mod(total, 12) + 1;
        let dim = days_in_month(y, mo);
        let d = if self.d <= dim { self.d } else { dim };
        Naive { y, mo, d, ..*self }
    }

    /// Add `n` years with `constrain` overflow (Feb 29 becomes Feb 28 in
    /// common years).
    pub fn add_years_constrain(&self, n: i64) -> (r: Naive)
        requires
            -MAX_CIVIL_YEAR <= self.y <= MAX_CIVIL_YEAR,
            -MAX_CIVIL_YEAR <= n <= MAX_CIVIL_YEAR,
        ensures
            r == self.spec_add_years_constrain(n as int),
    {
        let y = self.y + n;
        let dim = days_in_month(y, self.mo);
        let d = if self.d <= dim { self.d } else { dim };
        Naive { y, d, ..*self }
    }
}

} // verus!

verus! {

pub open spec fn era_yoe(doe: int) -> int {
    (doe - doe / 1460 + doe / 36524 - doe / 146096) / 365
}

pub open spec fn era_year_start(yoe: int) -> int {
    365 * yoe + yoe / 4 - yoe / 100
}

/// Length of the March-based year `yoe` of an era (it holds the February of
/// civil year `yoe + 1`).
pub open spec fn march_year_len(yoe: int) -> int {
    if spec_is_leap(yoe + 1) {
        366
    } else {
        365
    }
}

#[verifier::spinoff_prover]
#[verifier::rlimit(40)]
proof fn lemma_era_year(doe: int)
    requires
        0 <= doe <= 146096,
    ensures
        0 <= era_yoe(doe) <= 399,
        era_year_start(era_yoe(doe)) <= doe,
        doe - era_year_start(era_yoe(doe)) < march_year_len(era_yoe(doe)),
{
    let c = doe / 36524;
    let r = doe % 36524;
    let q = r / 1461;
    let r2 = r % 1461;
    let t = r2 / 365;
    let s = r2 % 365;
    assert(doe == 36524 * c + 1461 * q + 365 * t + s);
    assert(0 <= c <= 4);
    if c == 4 {
        assert(doe == 146096);
        assert(era_yoe(doe) == 399);
    } else if t == 4 {
        assert(s == 0);
        let y = 100 * c + 4 * q + 3;
        assert(era_yoe(doe) == y);
        assert((y + 1) / 4 == 25 * c + q + 1);
        assert((y + 1) / 100 == c + (4 * q + 4) / 100);
        assert(y / 4 == 25 * c + q);
        assert(y / 100 == c + (4 * q + 3) / 100);
    } else {
        let y = 100 * c + 4 * q + t;
        assert(era_yoe(doe) == y);
        assert((y + 1) / 4 == 25 * c + q + (t + 1) / 4);
        assert((y + 1) / 100 == c + (4 * q + t + 1) / 100);
        assert(y / 4 == 25 * c + q);
        assert(y / 100 == c + (4 * q + t) / 100);
    }
}


proof fn lemma_year_start_monotone(y1: int, y2: int)
    requires
        0 <= y1 <= y2,
    ensures
        era_year_start(y1) <= era_year_start(y2),
        y1 < y2 ==> era_year_start(y1) + 365 <= era_year_start(y2),
    decreases y2 - y1,
{
    if y1 < y2 {
        lemma_year_start_monotone(y1, y2 - 1);
        assert(era_year_start(y2 - 1) + 365 <= era_year_start(y2));
    }
}

/// The March-based years of an era tile it: year `yoe` covers days
/// `[era_year_start(yoe), era_year_start(yoe) + march_year_len(yoe))`.
#[verifier::spinoff_prover]
#[verifier::rlimit(40)]
proof fn lemma_era_year_converse(yoe: int, doy: int)
    requires
        0 <= yoe <= 399,
        0 <= doy < march_year_len(yoe),
    ensures
        0 <= era_year_start(yoe) + doy <= 146096,
        era_yoe(era_year_start(yoe) + doy) == yoe,
{
    let doe = era_year_start(yoe) + doy;
    lemma_year_start_monotone(yoe, 399);
    assert(era_year_start(399) == 145731);
    assert(0 <= doe <= 146096);
    lemma_era_year(doe);
    let y2 = era_yoe(doe);
    if y2 < yoe {
        lemma_year_start_monotone(y2 + 1, yoe);
        assert(era_year_start(y2 + 1) == era_year_start(y2) + march_year_len(y2));
    } else if y2 > yoe {
        lemma_year_start_monotone(yoe + 1, y2);
        assert(era_year_start(yoe + 1) == era_year_start(yoe) + march_year_len(yoe));
    }
}

/// First day (0-based, within the March-based year) of March-based month `mp`.
pub open spec fn month_start(mp: int) -> int {
    (153 * mp + 2) / 5
}

/// Length of March-based month `mp` (0 = March ... 11 = February) of
/// March-based year `yoe`.
pub open spec fn march_month_len(yoe: int, mp: int) -> int {
    if mp == 11 {
        if spec_is_leap(yoe + 1) {
            29
        } else {
            28
        }
    } else {
        month_start(mp + 1) - month_start(mp)
    }
}

proof fn lemma_month_of_day(yoe: int, doy: int)
    requires
        0 <= doy < march_year_len(yoe),
    ensures
        0 <= (5 * doy + 2) / 153 <= 11,
        month_start((5 * doy + 2) / 153) <= doy,
        doy - month_start((5 * doy + 2) / 153) < march_month_len(yoe, (5 * doy + 2) / 153),
{
    let mp = (5 * doy + 2) / 153;
    assert(0 <= mp <= 11);
    assert(month_start(mp) <= doy);
    assert(doy - month_start(mp) < march_month_len(yoe, mp)) by {
        if mp < 11 {
            assert(doy < month_start(mp + 1));
        }
    }
}

proof fn lemma_month_of_day_converse(yoe: int, mp: int, dd: int)
    requires
        0 <= mp <= 11,
        0 <= dd < march_month_len(yoe, mp),
    ensures
        0 <= month_start(mp) + dd < march_year_len(yoe),
        (5 * (month_start(mp) + dd) + 2) / 153 == mp,
{
}

/// Month `m` (January-based) of March-based month `mp` and back.
#[verifier::spinoff_prover]
#[verifier::rlimit(40)]
proof fn lemma_month_len_matches(y: int, m: int)
    requires
        1 <= m <= 12,
    ensures
        ({
            let mp = if m > 2 { m - 3 } else { m + 9 };
            let yoe_year = if m <= 2 { y - 1 } else { y };
            spec_days_in_month(y, m) == march_month_len(yoe_year % 400, mp)
        }),
{
    let yy = if m <= 2 { y - 1 } else { y };
    assert(spec_is_leap(yy % 400 + 1) == spec_is_leap(yy + 1)) by {
        vstd::arithmetic::div_mod::lemma_fundamental_div_mod(yy, 400);
        let k = yy / 400;
        assert((yy % 400 + 1) % 4 == (yy + 1) % 4) by {
            vstd::arithmetic::div_mod::lemma_mod_multiples_vanish(100 * k, yy % 400 + 1, 4);
        }
        assert((yy % 400 + 1) % 100 == (yy + 1) % 100) by {
            vstd::arithmetic::div_mod::lemma_mod_multiples_vanish(4 * k, yy % 400 + 1, 100);
        }
        assert((yy % 400 + 1) % 400 == (yy + 1) % 400) by {
            vstd::arithmetic::div_mod::lemma_mod_multiples_vanish(k, yy % 400 + 1, 400);
        }
    }
}

/// Decomposing a day number gives a real calendar date.
#[verifier::spinoff_prover]
#[verifier::rlimit(40)]
pub proof fn lemma_civil_from_days_valid(z: int)
    ensures
        ({
            let (y, m, d) = spec_civil_from_days(z);
            valid_civil(y, m, d)
        }),
{
    let zz = z + 719468;
    let era = zz / 146097;
    let doe = zz - era * 146097;
    vstd::arithmetic::div_mod::lemma_fundamental_div_mod(zz, 146097);
    lemma_era_year(doe);
    let yoe = era_yoe(doe);
    let doy = doe - era_year_start(yoe);
    lemma_month_of_day(yoe, doy);
    let mp = (5 * doy + 2) / 153;
    let m = if mp < 10 { mp + 3 } else { mp - 9 };
    let y = yoe + era * 400;
    let cy = if m <= 2 { y + 1 } else { y };
    lemma_month_len_matches(cy, m);
    let yy = if m <= 2 { cy - 1 } else { cy };
    assert(yy == y);
    assert(yy % 400 == yoe) by {
        vstd::arithmetic::div_mod::lemma_fundamental_div_mod_converse(yy, 400, era, yoe);
    }
}

/// Day numbers and valid civil dates correspond one to one: decomposing a
/// day number and counting the date's days gives the number back.
#[verifier::spinoff_prover]
#[verifier::rlimit(40)]
pub proof fn lemma_days_from_civil_from_days(z: int)
    ensures
        ({
            let (y, m, d) = spec_civil_from_days(z);
            spec_days_from_civil(y, m, d) == z
        }),
{
    let zz = z + 719468;
    let era = zz / 146097;
    let doe = zz - era * 146097;
    vstd::arithmetic::div_mod::lemma_fundamental_div_mod(zz, 146097);
    lemma_era_year(doe);
    let yoe = era_yoe(doe);
    let doy = doe - era_year_start(yoe);
    lemma_month_of_day(yoe, doy);
    let mp = (5 * doy + 2) / 153;
    let m = if mp < 10 { mp + 3 } else { mp - 9 };
    let y = yoe + era * 400;
    let cy = if m <= 2 { y + 1 } else { y };
    let yy = if m <= 2 { cy - 1 } else { cy };
    assert(yy == y);
    assert(yy / 400 == era) by {
        vstd::arithmetic::div_mod::lemma_fundamental_div_mod_converse(yy, 400, era, yoe);
    }
    let d = doy - month_start(mp) + 1;
    let mp2 = if m > 2 { m - 3 } else { m + 9 };
    assert(mp2 == mp);
    assert(trunc_div(153 * mp2 + 2, 5) == month_start(mp));
}

/// Counting a valid date's days and decomposing the count gives the date back.
#[verifier::spinoff_prover]
#[verifier::rlimit(40)]
pub proof fn lemma_civil_from_days_from_civil(y: int, m: int, d: int)
    requires
        valid_civil(y, m, d),
    ensures
        spec_civil_from_days(spec_days_from_civil(y, m, d)) == (y, m, d),
{
    let yy = if m <= 2 { y - 1 } else { y };
    let era = yy / 400;
    let yoe = yy - era * 400;
    vstd::arithmetic::div_mod::lemma_fundamental_div_mod(yy, 400);
    let mp = if m > 2 { m - 3 } else { m + 9 };
    lemma_month_len_matches(y, m);
    assert(yy % 400 == yoe);
    assert(trunc_div(153 * mp + 2, 5) == month_start(mp));
    lemma_month_of_day_converse(yoe, mp, d - 1);
    let doy = month_start(mp) + d - 1;
    lemma_era_year_converse(yoe, doy);
    let doe = era_year_start(yoe) + doy;
    let z = spec_days_from_civil(y, m, d);
    assert(z == era * 146097 + doe - 719468);
    let zz = z + 719468;
    assert(zz / 146097 == era) by {
        vstd::arithmetic::div_mod::lemma_fundamental_div_mod_converse(zz, 146097, era, doe);
    }
}


/// The year of a day number grows about one per 365 days.
#[verifier::spinoff_prover]
#[verifier::rlimit(40)]
pub proof fn lemma_civil_year_bound(z: int)
    ensures
        ({
            let y = spec_civil_from_days(z).0;
            365 * (if y >= 0 { y } else { -y }) <= (if z >= 0 { z } else { -z }) + 2_000_000
        }),
{
    let zz = z + 719468;
    let era = zz / 146097;
    let doe = zz - era * 146097;
    vstd::arithmetic::div_mod::lemma_fundamental_div_mod(zz, 146097);
    lemma_era_year(doe);
    let yoe = era_yoe(doe);
    let y = spec_civil_from_days(z).0;
    assert(y == yoe + era * 400 || y == yoe + era * 400 + 1);
    assert(365 * (if y >= 0 { y } else { -y }) <= (if z >= 0 { z } else { -z }) + 2_000_000)
        by (nonlinear_arith)
        requires
            era * 146097 <= zz < era * 146097 + 146097,
            zz == z + 719468,
            0 <= yoe <= 399,
            y == yoe + era * 400 || y == yoe + era * 400 + 1,
    ;
}


/// Splitting a millisecond count within a day into hour, minute, second and
/// millisecond and summing them back gives the count.
#[verifier::spinoff_prover]
#[verifier::rlimit(40)]
proof fn lemma_time_of_day(rem: int)
    requires
        0 <= rem < 86_400_000,
    ensures
        0 <= rem / 3_600_000 < 24,
        0 <= (rem % 3_600_000) / 60_000 < 60,
        0 <= (rem % 60_000) / 1000 < 60,
        0 <= rem % 1000 < 1000,
        (rem / 3_600_000) * 3_600_000 + ((rem % 3_600_000) / 60_000) * 60_000 + ((rem % 60_000)
            / 1000) * 1000 + rem % 1000 == rem,
{
    let h = rem / 3_600_000;
    let r1 = rem % 3_600_000;
    assert(rem == h * 3_600_000 + r1);
    let mi = r1 / 60_000;
    let r2 = r1 % 60_000;
    assert(r1 == mi * 60_000 + r2);
    assert(rem % 60_000 == r2) by {
        vstd::arithmetic::div_mod::lemma_mod_mod(rem, 60_000, 60);
    }
    let s = r2 / 1000;
    let r3 = r2 % 1000;
    assert(r2 == s * 1000 + r3);
    assert(rem % 1000 == r3) by {
        vstd::arithmetic::div_mod::lemma_mod_mod(rem, 1000, 86_400);
        vstd::arithmetic::div_mod::lemma_mod_mod(r2, 1000, 60);
        vstd::arithmetic::div_mod::lemma_mod_mod(rem, 60_000, 60);
        vstd::arithmetic::div_mod::lemma_mod_mod(rem, 1000, 60);
    }
}

impl Naive {
    /// Decomposing a naive ordinal gives a real date-time whose ordinal is the
    /// number decomposed, on the day that number falls in.
    #[verifier::spinoff_prover]
    #[verifier::rlimit(40)]
    pub proof fn lemma_ordinal_round_trip(v: int)
        requires
            i64::MIN <= v <= i64::MAX,
        ensures
            Naive::spec_from_ordinal_ms(v).is_valid(),
            Naive::spec_from_ordinal_ms(v).spec_ordinal_ms() == v,
            spec_days_from_civil(
                Naive::spec_from_ordinal_ms(v).y as int,
                Naive::spec_from_ordinal_ms(v).mo as int,
                Naive::spec_from_ordinal_ms(v).d as int,
            ) == v / (MS_PER_DAY as int),
            -300_000_000 <= Naive::spec_from_ordinal_ms(v).y <= 300_000_000,
            365 * (if Naive::spec_from_ordinal_ms(v).y >= 0 {
                Naive::spec_from_ordinal_ms(v).y as int
            } else {
                -Naive::spec_from_ordinal_ms(v).y
            }) <= (if v / (MS_PER_DAY as int) >= 0 {
                v / (MS_PER_DAY as int)
            } else {
                -(v / (MS_PER_DAY as int))
            }) + 2_000_000,
    {
        let days = v / (MS_PER_DAY as int);
        let rem = v % (MS_PER_DAY as int);
        assert(v == days * MS_PER_DAY + rem);
        assert(-110_000_000_000 <= days <= 110_000_000_000);
        lemma_civil_from_days_valid(days);
        lemma_days_from_civil_from_days(days);
        lemma_civil_year_bound(days);
        lemma_time_of_day(rem);
    }
}


impl Naive {
    /// Reading a real date-time's ordinal back gives the date-time: the
    /// ordinal is one to one on real date-times.
    #[verifier::spinoff_prover]
    #[verifier::rlimit(40)]
    pub proof fn lemma_naive_round_trip(n: Naive)
        requires
            n.is_valid(),
        ensures
            Naive::spec_from_ordinal_ms(n.spec_ordinal_ms()) == n,
    {
        let z = spec_days_from_civil(n.y as int, n.mo as int, n.d as int);
        let tod = n.h * 3_600_000 + n.mi * 60_000 + n.s * 1000 + n.ms;
        let v = n.spec_ordinal_ms();
        assert(v == z * 86_400_000 + tod);
        assert(0 <= tod < 86_400_000);
        vstd::arithmetic::div_mod::lemma_fundamental_div_mod_converse(v, 86_400_000, z, tod);
        lemma_civil_from_days_from_civil(n.y as int, n.mo as int, n.d as int);
        let r1 = n.mi * 60_000 + n.s * 1000 + n.ms;
        vstd::arithmetic::div_mod::lemma_fundamental_div_mod_converse(tod, 3_600_000, n.h as int, r1);
        let r2 = n.s * 1000 + n.ms;
        vstd::arithmetic::div_mod::lemma_fundamental_div_mod_converse(r1, 60_000, n.mi as int, r2);
        let tm = n.h * 60 + n.mi;
        vstd::arithmetic::div_mod::lemma_fundamental_div_mod_converse(tod, 60_000, tm, r2);
        vstd::arithmetic::div_mod::lemma_fundamental_div_mod_converse(r2, 1000, n.s as int, n.ms as int);
        let ts = n.h * 3600 + n.mi * 60 + n.s;
        vstd::arithmetic::div_mod::lemma_fundamental_div_mod_converse(tod, 1000, ts, n.ms as int);
    }
}

/// The day number of March 1 of year `yy`, which starts the March-based year
/// holding the February of year `yy + 1`.
pub open spec fn march_first(yy: int) -> int {
    let era = yy / 400;
    let yoe = yy - era * 400;
    era * 146097 + yoe * 365 + yoe / 4 - yoe / 100 - 719468
}

/// A March-based year is as long as the civil year whose February it holds.
proof fn lemma_march_year_step(y: int)
    ensures
        march_first(y) - march_first(y - 1) == spec_days_in_year(y),
{
    let yy = y - 1;
    let e = yy / 400;
    let r = yy % 400;
    vstd::arithmetic::div_mod::lemma_fundamental_div_mod(yy, 400);
    if r < 399 {
        assert(y / 400 == e) by {
            vstd::arithmetic::div_mod::lemma_fundamental_div_mod_converse(y, 400, e, r + 1);
        }
        assert(y % 4 == (r + 1) % 4) by {
            vstd::arithmetic::div_mod::lemma_mod_multiples_vanish(100 * e, r + 1, 4);
        }
        assert(y % 100 == (r + 1) % 100) by {
            vstd::arithmetic::div_mod::lemma_mod_multiples_vanish(4 * e, r + 1, 100);
        }
        assert(y % 400 == r + 1) by {
            vstd::arithmetic::div_mod::lemma_mod_multiples_vanish(e, r + 1, 400);
        }
    } else {
        assert(y / 400 == e + 1) by {
            vstd::arithmetic::div_mod::lemma_fundamental_div_mod_converse(y, 400, e + 1, 0);
        }
        assert(y % 400 == 0) by {
            vstd::arithmetic::div_mod::lemma_mod_multiples_vanish(e + 1, 0, 400);
        }
    }
}

/// The day of the year of a real date, from its month and day: January and
/// February first, then March on after the 59 or 60 days before it.
pub proof fn lemma_day_of_year_closed(y: int, m: int, d: int)
    requires
        valid_civil(y, m, d),
    ensures
        spec_day_of_year(y, m, d) == if m == 1 {
            d
        } else if m == 2 {
            31 + d
        } else {
            spec_days_in_year(y) - 306 + month_start(m - 3) + d
        },
{
    lemma_march_year_step(y);
    assert(spec_days_from_civil(y, 1, 1) == march_first(y - 1) + 306);
    if m <= 2 {
        assert(spec_days_from_civil(y, m, d) == march_first(y - 1) + month_start(m + 9) + d - 1);
    } else {
        assert(spec_days_from_civil(y, m, d) == march_first(y) + month_start(m - 3) + d - 1);
    }
}

/// The day number of the first day of the month with index `mi`
/// (`year * 12 + month - 1`).
pub open spec fn month_first_day(mi: int) -> int {
    spec_days_from_civil(mi / 12, mi % 12 + 1, 1)
}

/// The day number of January 1 of year `y`.
pub open spec fn year_first_day(y: int) -> int {
    spec_days_from_civil(y, 1, 1)
}

/// A year is as many days long as it has: January 1 of the next year comes
/// that many days after January 1.
pub proof fn lemma_year_step(y: int)
    ensures
        year_first_day(y + 1) - year_first_day(y) == spec_days_in_year(y),
{
    lemma_march_year_step(y);
    assert(spec_days_from_civil(y, 1, 1) == march_first(y - 1) + 306);
    assert(spec_days_from_civil(y + 1, 1, 1) == march_first(y) + 306);
}

/// A month is as many days long as it has: the next month starts that many
/// days after it.
pub proof fn lemma_month_step(mi: int)
    ensures
        month_first_day(mi + 1) - month_first_day(mi) == spec_days_in_month(mi / 12, mi % 12 + 1),
        28 <= spec_days_in_month(mi / 12, mi % 12 + 1) <= 31,
{
    let y = mi / 12;
    let m = mi % 12 + 1;
    vstd::arithmetic::div_mod::lemma_fundamental_div_mod(mi, 12);
    assert(valid_civil(y, m, 1));
    lemma_day_of_year_closed(y, m, 1);
    assert(month_start(0) == 0 && month_start(1) == 31 && month_start(2) == 61 && month_start(3) == 92);
    assert(month_start(4) == 122 && month_start(5) == 153 && month_start(6) == 184 && month_start(7) == 214);
    assert(month_start(8) == 245 && month_start(9) == 275);
    if m < 12 {
        assert((mi + 1) / 12 == y && (mi + 1) % 12 == m) by {
            vstd::arithmetic::div_mod::lemma_fundamental_div_mod_converse(mi + 1, 12, y, m);
        }
        assert(valid_civil(y, m + 1, 1));
        lemma_day_of_year_closed(y, m + 1, 1);
    } else {
        assert((mi + 1) / 12 == y + 1 && (mi + 1) % 12 == 0) by {
            vstd::arithmetic::div_mod::lemma_fundamental_div_mod_converse(mi + 1, 12, y + 1, 0);
        }
        lemma_year_step(y);
    }
}

/// Later months start later, by 28 to 31 days per month between.
pub proof fn lemma_month_first_grows(a: int, b: int)
    requires
        a <= b,
    ensures
        28 * (b - a) <= month_first_day(b) - month_first_day(a) <= 31 * (b - a),
    decreases b - a,
{
    if a < b {
        lemma_month_first_grows(a, b - 1);
        lemma_month_step(b - 1);
    }
}

/// Later years start later, by at least 365 days per year between.
pub proof fn lemma_year_first_grows(a: int, b: int)
    requires
        a <= b,
    ensures
        365 * (b - a) <= year_first_day(b) - year_first_day(a),
    decreases b - a,
{
    if a < b {
        lemma_year_first_grows(a, b - 1);
        lemma_year_step(b - 1);
    }
}

/// A real date falls within its month and within its year; a year starts
/// with its January.
pub proof fn lemma_date_bounds(y: int, m: int, d: int)
    requires
        valid_civil(y, m, d),
    ensures
        month_first_day(y * 12 + m - 1) <= spec_days_from_civil(y, m, d) < month_first_day(y * 12 + m),
        year_first_day(y) <= spec_days_from_civil(y, m, d) < year_first_day(y + 1),
        month_first_day(y * 12) == year_first_day(y),
        month_first_day(y * 12 + m - 1) == spec_days_from_civil(y, m, 1),
{
    let mi = y * 12 + m - 1;
    assert(mi / 12 == y && mi % 12 == m - 1) by {
        vstd::arithmetic::div_mod::lemma_fundamental_div_mod_converse(mi, 12, y, m - 1);
    }
    assert((y * 12) / 12 == y && (y * 12) % 12 == 0) by {
        vstd::arithmetic::div_mod::lemma_fundamental_div_mod_converse(y * 12, 12, y, 0);
    }
    lemma_month_step(mi);
    assert(spec_days_from_civil(y, m, d) == spec_days_from_civil(y, m, 1) + d - 1);
    lemma_day_of_year_bounds(y, m, d);
    lemma_year_step(y);
}

/// `days_from_civil` counts days: 1970-01-01 is day 0, the days of a month
/// are consecutive, and each month starts the day after the previous one's
/// last day.
pub proof fn lemma_days_from_civil_counts_days(y: int, m: int, d: int)
    requires
        valid_civil(y, m, d),
    ensures
        spec_days_from_civil(1970, 1, 1) == 0,
        d < spec_days_in_month(y, m) ==> spec_days_from_civil(y, m, d + 1) == spec_days_from_civil(y, m, d) + 1,
        d == spec_days_in_month(y, m) ==> spec_days_from_civil(
            if m == 12 { y + 1 } else { y },
            if m == 12 { 1 } else { m + 1 },
            1,
        ) == spec_days_from_civil(y, m, d) + 1,
{
    lemma_date_bounds(y, m, d);
    let mi = y * 12 + m - 1;
    lemma_month_step(mi);
    assert(mi / 12 == y && mi % 12 == m - 1) by {
        vstd::arithmetic::div_mod::lemma_fundamental_div_mod_converse(mi, 12, y, m - 1);
    }
    if m == 12 {
        assert((mi + 1) / 12 == y + 1 && (mi + 1) % 12 == 0) by {
            vstd::arithmetic::div_mod::lemma_fundamental_div_mod_converse(mi + 1, 12, y + 1, 0);
        }
    } else {
        assert((mi + 1) / 12 == y && (mi + 1) % 12 == m) by {
            vstd::arithmetic::div_mod::lemma_fundamental_div_mod_converse(mi + 1, 12, y, m);
        }
    }
}

/// A real date falls on day 1 to 365 (366 in a leap year) of its year, and
/// on day 1 to the length of its quarter within its quarter.
pub proof fn lemma_day_of_year_bounds(y: int, m: int, d: int)
    requires
        valid_civil(y, m, d),
    ensures
        1 <= spec_day_of_year(y, m, d) <= spec_days_in_year(y),
        1 <= spec_day_of_quarter(y, m, d) <= spec_days_in_quarter(y, spec_quarter_of_month(m)),
{
    lemma_day_of_year_closed(y, m, d);
    let q = spec_quarter_of_month(m);
    let qsm = spec_quarter_start_month(q);
    assert(1 <= q <= 4);
    assert(1 <= qsm <= m);
    assert(valid_civil(y, qsm, 1));
    lemma_day_of_year_closed(y, qsm, 1);
    assert(month_start(0) == 0 && month_start(1) == 31 && month_start(2) == 61 && month_start(3) == 92);
    assert(month_start(4) == 122 && month_start(5) == 153 && month_start(6) == 184 && month_start(7) == 214);
    assert(month_start(8) == 245 && month_start(9) == 275);
}

} // verus!
