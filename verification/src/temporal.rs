//! Temporal values: civil dates, civil timestamps and exact durations — their
//! domains, their text form, and the civil-calendar arithmetic underneath.
//!
//! A timestamp is civil (a date and a clock reading, no zone), a duration is
//! exact (counted in microseconds, no month or year unit), and text is one
//! grammar used by the `@` literal, the `as` cast and import inference alike.
//! Day↔calendar conversion is Howard Hinnant's `days_from_civil` /
//! `civil_from_days` over the proleptic Gregorian calendar, epoch 1970-01-01.
use vstd::prelude::*;

use crate::text::{
    all_digits, alpha_run, char_digit_value, char_is_alpha, char_is_digit, digit_run, digit_run_from,
    alpha_run_from, digits_value, find_char, first_index, is_alpha, is_digit, pow10, signed_decimal,
    sub_string, decimal, zero_padded, byte_offset, trim,
};

verus! {

/// Microseconds in one millisecond, second, minute, hour and day.
pub const US_PER_MS: i64 = 1_000;
pub const US_PER_S: i64 = 1_000_000;
pub const US_PER_MIN: i64 = 60_000_000;
pub const US_PER_HOUR: i64 = 3_600_000_000;
pub const US_PER_DAY: i64 = 86_400_000_000;

/// Years are four digits, which bounds every value in this module.
pub const MIN_YEAR: i64 = 0;
pub const MAX_YEAR: i64 = 9999;

/// The day count of 0000-01-01 and of 9999-12-31.
pub const MIN_DAYS: i64 = -719_528;
pub const MAX_DAYS: i64 = 2_932_896;

/// A civil day, as days since 1970-01-01 (proleptic Gregorian).
#[derive(Debug, Clone, Copy, PartialEq, Eq, Hash, PartialOrd, Ord)]
pub struct Date(i32);

/// A civil date and time, as microseconds since 1970-01-01T00:00:00.
#[derive(Debug, Clone, Copy, PartialEq, Eq, Hash, PartialOrd, Ord)]
pub struct Timestamp(i64);

/// A signed elapsed quantity, in microseconds.
#[derive(Debug, Clone, Copy, PartialEq, Eq, Hash, PartialOrd, Ord)]
pub struct Duration(i64);

impl View for Date {
    type V = int;

    closed spec fn view(&self) -> int {
        self.0 as int
    }
}

impl View for Timestamp {
    type V = int;

    closed spec fn view(&self) -> int {
        self.0 as int
    }
}

impl Date {
    /// Every date lies within a band around years 0 to 9999 wide enough for
    /// its midnight to be a timestamp.
    #[verifier::type_invariant]
    spec fn in_band(self) -> bool {
        -1_000_000 <= self.0 <= 3_000_000
    }

}

impl Timestamp {
    /// Every timestamp falls on a day of the band dates lie in.
    #[verifier::type_invariant]
    spec fn in_band(self) -> bool {
        -1_000_000 * US_PER_DAY <= self.0 < 3_000_001 * US_PER_DAY
    }

}

impl View for Duration {
    type V = int;

    closed spec fn view(&self) -> int {
        self.0 as int
    }
}

/// Why a piece of text is not the temporal value it looked like. Every variant
/// names the component at fault rather than a position.
#[derive(Debug, Clone, PartialEq, Eq)]
pub enum TemporalError {
    /// Not any temporal form — the shape is wrong, not one field of it.
    Shape,
    /// A field is out of range for its neighbours: `2026-02-30`, `10:61:00`.
    Component { field: &'static str, value: String },
    /// Beyond the four-digit-year range this module represents.
    Range,
    /// A duration unit that does not exist, or one that is deliberately excluded.
    Unit(String),
    /// Duration components out of order, or one unit used twice.
    Order,
}

/// The mathematical content of a [`TemporalError`].
pub enum TemporalErrorView {
    Shape,
    Component(Seq<char>, Seq<char>),
    Range,
    Unit(Seq<char>),
    Order,
}

impl View for TemporalError {
    type V = TemporalErrorView;

    open spec fn view(&self) -> TemporalErrorView {
        match self {
            TemporalError::Shape => TemporalErrorView::Shape,
            TemporalError::Component { field, value } => TemporalErrorView::Component(field@, value@),
            TemporalError::Range => TemporalErrorView::Range,
            TemporalError::Unit(unit) => TemporalErrorView::Unit(unit@),
            TemporalError::Order => TemporalErrorView::Order,
        }
    }
}

/// A result's error mapped to its view.
pub open spec fn view_err<T>(r: Result<T, TemporalError>) -> Result<T, TemporalErrorView> {
    match r {
        Ok(v) => Ok(v),
        Err(e) => Err(e@),
    }
}

/// The message body of a temporal error.
pub open spec fn spec_message(e: TemporalErrorView) -> Seq<char> {
    match e {
        TemporalErrorView::Shape => "not a date, timestamp, or duration"@,
        TemporalErrorView::Component(field, value) => value + " is not a valid "@ + field,
        TemporalErrorView::Range => "outside the representable range (years 0000-9999)"@,
        TemporalErrorView::Unit(unit) => if unit == "M"@ || unit == "Y"@ {
            "`"@ + unit + "` is a calendar unit, which has no fixed length; durations are exact (use days, or `std/time`'s `truncate`)"@
        } else {
            "`"@ + unit + "` is not a duration unit (d, h, m, s, ms, us)"@
        },
        TemporalErrorView::Order => "duration components must be largest-first and each used once"@,
    }
}

fn is_calendar_unit(unit: &String) -> (r: bool)
    ensures
        r == (unit@ == "M"@ || unit@ == "Y"@),
{
    let m = String::from_str("M");
    let y = String::from_str("Y");
    *unit == m || *unit == y
}

impl TemporalError {
    /// The message body a diagnostic renders.
    pub fn message(&self) -> (r: String)
        ensures
            r@ == spec_message(self@),
    {
        match self {
            TemporalError::Shape => String::from_str("not a date, timestamp, or duration"),
            TemporalError::Component { field, value } => {
                let mut r = value.clone();
                r.append(" is not a valid ");
                r.append(field);
                r
            },
            TemporalError::Range => String::from_str(
                "outside the representable range (years 0000-9999)",
            ),
            TemporalError::Unit(unit) => {
                let mut r = String::from_str("`");
                r.append(unit.as_str());
                if is_calendar_unit(unit) {
                    r.append(
                        "` is a calendar unit, which has no fixed length; durations are exact (use days, or `std/time`'s `truncate`)",
                    );
                } else {
                    r.append("` is not a duration unit (d, h, m, s, ms, us)");
                }
                r
            },
            TemporalError::Order => String::from_str(
                "duration components must be largest-first and each used once",
            ),
        }
    }

    /// The fix a diagnostic suggests, where there is an actionable one: only a
    /// calendar unit (`M`, `Y`) has one.
    pub fn suggestion(&self) -> (r: Option<String>)
        ensures
            r is Some <==> (self matches TemporalError::Unit(unit) && (unit@ == "M"@ || unit@ == "Y"@)),
            r matches Some(s) ==> s@ == "for a month or a year, group with `truncate(D, month, M)` from `import \"std/time\".`"@,
    {
        match self {
            TemporalError::Unit(unit) => {
                if is_calendar_unit(unit) {
                    Some(String::from_str(
                        "for a month or a year, group with `truncate(D, month, M)` from `import \"std/time\".`",
                    ))
                } else {
                    None
                }
            },
            _ => None,
        }
    }
}

// --- Civil calendar arithmetic (Hinnant) ---

/// Days since 1970-01-01 of a civil year/month/day.
pub open spec fn spec_days_from_civil(y: int, m: int, d: int) -> int {
    let y = if m <= 2 { y - 1 } else { y };
    let era = y / 400;
    let yoe = y - era * 400;
    let mp = (m + 9) % 12;
    let doy = (153 * mp + 2) / 5 + d - 1;
    let doe = yoe * 365 + yoe / 4 - yoe / 100 + doy;
    era * 146097 + doe - 719468
}

/// The civil year/month/day of a day count — the inverse of
/// [`spec_days_from_civil`].
pub open spec fn spec_civil_from_days(z: int) -> (int, int, int) {
    let z = z + 719468;
    let era = z / 146097;
    let doe = z - era * 146097;
    let yoe = (doe - doe / 1460 + doe / 36524 - doe / 146096) / 365;
    let y = yoe + era * 400;
    let doy = doe - (365 * yoe + yoe / 4 - yoe / 100);
    let mp = (5 * doy + 2) / 153;
    let d = doy - (153 * mp + 2) / 5 + 1;
    let m = if mp < 10 { mp + 3 } else { mp - 9 };
    (if m <= 2 { y + 1 } else { y }, m, d)
}

/// Is `year` a Gregorian leap year?
pub open spec fn spec_is_leap(year: int) -> bool {
    (year % 4 == 0 && year % 100 != 0) || year % 400 == 0
}

/// Days in a civil month (0 for a month that does not exist).
pub open spec fn spec_days_in_month(year: int, month: int) -> int {
    if month == 1 || month == 3 || month == 5 || month == 7 || month == 8 || month == 10 || month
        == 12 {
        31
    } else if month == 4 || month == 6 || month == 9 || month == 11 {
        30
    } else if month == 2 {
        if spec_is_leap(year) {
            29
        } else {
            28
        }
    } else {
        0
    }
}

/// Does the civil date exist within the four-digit-year range?
pub open spec fn valid_ymd(y: int, m: int, d: int) -> bool {
    MIN_YEAR <= y <= MAX_YEAR && 1 <= m <= 12 && 1 <= d <= spec_days_in_month(y, m)
}

/// Floor division by a positive divisor.
fn div_floor(a: i64, b: i64) -> (r: i64)
    requires
        b > 0,
    ensures
        r == a / b,
{
    match a.checked_div_euclid(b) {
        Some(q) => q,
        None => {
            assert(false) by (nonlinear_arith)
                requires
                    b > 0,
                    !(i64::MIN <= a / b <= i64::MAX),
                    i64::MIN <= a <= i64::MAX,
            {
                if a >= 0 {
                    assert(0 <= a / b <= a);
                } else {
                    assert(a <= a / b <= 0);
                }
            }
            0
        },
    }
}

/// Floor remainder by a positive divisor.
fn mod_floor(a: i64, b: i64) -> (r: i64)
    requires
        b > 0,
    ensures
        r == a % b,
        0 <= r < b,
{
    match a.checked_rem_euclid(b) {
        Some(q) => q,
        None => {
            assert(0 <= a % b < b) by (nonlinear_arith)
                requires
                    b > 0,
            ;
            0
        },
    }
}

/// Days since 1970-01-01 for a civil year/month/day, assuming the date exists.
fn days_from_civil(y: i64, m: i64, d: i64) -> (r: i64)
    requires
        MIN_YEAR <= y <= MAX_YEAR,
        1 <= m <= 12,
        1 <= d <= 31,
    ensures
        r == spec_days_from_civil(y as int, m as int, d as int),
        MIN_DAYS <= r <= MAX_DAYS + 31,
{
    let y = if m <= 2 {
        y - 1
    } else {
        y
    };
    let era = div_floor(y, 400);
    let yoe = y - era * 400;
    let mp = (m + 9) % 12;
    let doy = (153 * mp + 2) / 5 + d - 1;
    let doe = yoe * 365 + yoe / 4 - yoe / 100 + doy;
    era * 146097 + doe - 719468
}

/// The civil year/month/day of a day count.
fn civil_from_days(z: i64) -> (r: (i64, i64, i64))
    requires
        z <= i64::MAX - 719468,
    ensures
        r == ({
            let s = spec_civil_from_days(z as int);
            (s.0 as i64, s.1 as i64, s.2 as i64)
        }),
        (r.0 as int, r.1 as int, r.2 as int) == spec_civil_from_days(z as int),
{
    let z = z + 719468;
    let era = div_floor(z, 146097);
    assert(0 <= z - era * 146097 < 146097) by (nonlinear_arith)
        requires
            era == z / 146097,
    ;
    let doe = z - era * 146097;
    let yoe = (doe - doe / 1460 + doe / 36524 - doe / 146096) / 365;
    assert(0 <= yoe <= 400);
    let y = yoe + era * 400;
    let doy = doe - (365 * yoe + yoe / 4 - yoe / 100);
    assert(-1000 <= doy <= 150000);
    let mp = div_floor(5 * doy + 2, 153);
    let d = doy - div_floor(153 * mp + 2, 5) + 1;
    let m = if mp < 10 {
        mp + 3
    } else {
        mp - 9
    };
    (
        if m <= 2 {
            y + 1
        } else {
            y
        },
        m,
        d,
    )
}

/// Days in a civil month, leap years included.
fn days_in_month(year: i64, month: i64) -> (r: i64)
    ensures
        r == spec_days_in_month(year as int, month as int),
{
    if month == 1 || month == 3 || month == 5 || month == 7 || month == 8 || month == 10 || month
        == 12 {
        31
    } else if month == 4 || month == 6 || month == 9 || month == 11 {
        30
    } else if month == 2 {
        if is_leap(year) {
            29
        } else {
            28
        }
    } else {
        0
    }
}

fn is_leap(year: i64) -> (r: bool)
    ensures
        r == spec_is_leap(year as int),
{
    (mod_floor(year, 4) == 0 && mod_floor(year, 100) != 0) || mod_floor(year, 400) == 0
}


/// The result of building a date from civil parts, by view.
pub open spec fn spec_from_ymd(year: int, month: int, day: int) -> Result<int, TemporalErrorView> {
    if !(MIN_YEAR <= year <= MAX_YEAR) {
        Err(TemporalErrorView::Range)
    } else if !(1 <= month <= 12) {
        Err(TemporalErrorView::Component("month"@, signed_decimal(month)))
    } else if day < 1 || day > spec_days_in_month(year, month) {
        Err(TemporalErrorView::Component("day"@, signed_decimal(day)))
    } else {
        Ok(spec_days_from_civil(year, month, day))
    }
}

/// A result over a temporal type, by view.
pub open spec fn view_result<T: View<V = int>>(r: Result<T, TemporalError>) -> Result<int, TemporalErrorView> {
    match r {
        Ok(v) => Ok(v@),
        Err(e) => Err(e@),
    }
}

/// The year a day count falls in.
pub open spec fn year_of_days(days: int) -> int {
    spec_civil_from_days(days).0
}

/// The civil parts of a microsecond count: year, month, day, hour, minute,
/// second, microsecond. The day is floor-divided, so a pre-epoch timestamp
/// keeps a non-negative time of day.
pub open spec fn spec_parts(micros: int) -> (int, int, int, int, int, int, int) {
    let days = micros / US_PER_DAY as int;
    let rem = micros % US_PER_DAY as int;
    let (year, month, day) = spec_civil_from_days(days);
    (
        year,
        month,
        day,
        rem / US_PER_HOUR as int,
        (rem % US_PER_HOUR as int) / US_PER_MIN as int,
        (rem % US_PER_MIN as int) / US_PER_S as int,
        rem % US_PER_S as int,
    )
}

/// The microsecond count of a civil reading whose date exists.
pub open spec fn spec_timestamp_micros(
    year: int,
    month: int,
    day: int,
    hour: int,
    minute: int,
    second: int,
    micros: int,
) -> int {
    spec_days_from_civil(year, month, day) * US_PER_DAY as int + hour * US_PER_HOUR as int + minute
        * US_PER_MIN as int + second * US_PER_S as int + micros
}

/// The result of building a timestamp from civil parts, by view.
pub open spec fn spec_from_parts(
    year: int,
    month: int,
    day: int,
    hour: int,
    minute: int,
    second: int,
    micros: int,
) -> Result<int, TemporalErrorView> {
    match spec_from_ymd(year, month, day) {
        Err(e) => Err(e),
        Ok(_) => if !(0 <= hour <= 23) {
            Err(TemporalErrorView::Component("hour"@, signed_decimal(hour)))
        } else if !(0 <= minute <= 59) {
            Err(TemporalErrorView::Component("minute"@, signed_decimal(minute)))
        } else if !(0 <= second <= 59) {
            Err(TemporalErrorView::Component("second"@, signed_decimal(second)))
        } else if !(0 <= micros < US_PER_S) {
            Err(TemporalErrorView::Component("microsecond"@, signed_decimal(micros)))
        } else {
            Ok(spec_timestamp_micros(year, month, day, hour, minute, second, micros))
        },
    }
}

/// Hinnant's year-of-era: every day of a 400-year era (counted from March 1
/// of its first year) falls in one of its 400 years.
proof fn lemma_year_of_era(doe: u64, yoe: u64)
    by (bit_vector)
    requires
        doe <= 146096,
        yoe == (doe - doe / 1460 + doe / 36524 - doe / 146096) / 365,
    ensures
        yoe <= 399,
        365 * yoe + yoe / 4 - yoe / 100 <= doe,
{
}

/// Hinnant's day-of-year: within its year of the era a day is one of 365,
/// or the 366th only in a year whose following February has a 29th.
proof fn lemma_day_of_year(doe: u64, yoe: u64, doy: u64)
    by (bit_vector)
    requires
        doe <= 146096,
        yoe == (doe - doe / 1460 + doe / 36524 - doe / 146096) / 365,
        doy == doe - (365 * yoe + yoe / 4 - yoe / 100),
    ensures
        doy <= 365,
        doy == 365 ==> yoe % 4 == 3 && (yoe % 100 != 99 || yoe % 400 == 399),
{
}

/// Hinnant's month of a March-based year: a day of the year falls in one of
/// its twelve months (March first), on a day that month has; February's 29th
/// only as the year's 366th day.
proof fn lemma_month_of_year(doy: int, mp: int, q: int)
    requires
        0 <= doy <= 365,
        mp == (5 * doy + 2) / 153,
        q == (153 * mp + 2) / 5,
    ensures
        0 <= mp <= 11,
        q <= doy,
        doy <= q + 30,
        mp == 1 || mp == 3 || mp == 6 || mp == 8 ==> doy <= q + 29,
        mp == 11 ==> doy <= q + 28,
        mp == 11 && doy == q + 28 ==> doy == 365,
{
    assert(0 <= mp <= 11);
    if mp == 0 {
    } else if mp == 1 {
    } else if mp == 2 {
    } else if mp == 3 {
    } else if mp == 4 {
    } else if mp == 5 {
    } else if mp == 6 {
    } else if mp == 7 {
    } else if mp == 8 {
    } else if mp == 9 {
    } else if mp == 10 {
    } else {
    }
}

/// Civil conversion is a bijection on days: the civil date of any day count
/// exists (its month is one of twelve, its day one that month has), and
/// converts back to the same day count.
pub proof fn lemma_civil_round_trip(z: int)
    ensures
        ({
            let (y, m, d) = spec_civil_from_days(z);
            &&& 1 <= m <= 12
            &&& 1 <= d <= spec_days_in_month(y, m)
            &&& spec_days_from_civil(y, m, d) == z
        }),
{
    let zz = z + 719468;
    let era = zz / 146097;
    assert(0 <= zz - era * 146097 < 146097) by (nonlinear_arith)
        requires
            era == zz / 146097,
    ;
    let doe = zz - era * 146097;
    let yoe = (doe - doe / 1460 + doe / 36524 - doe / 146096) / 365;
    lemma_year_of_era(doe as u64, yoe as u64);
    let doy = doe - (365 * yoe + yoe / 4 - yoe / 100);
    lemma_day_of_year(doe as u64, yoe as u64, doy as u64);
    let mp = (5 * doy + 2) / 153;
    lemma_month_of_year(doy, mp, (153 * mp + 2) / 5);
    let d = doy - (153 * mp + 2) / 5 + 1;
    let m = if mp < 10 { mp + 3 } else { mp - 9 };
    let y = yoe + era * 400;
    let year = if m <= 2 { y + 1 } else { y };
    assert(spec_civil_from_days(z) == (year, m, d));
    // Back again: the shifted year is `y`, in era `era` at year `yoe`.
    assert((era * 400 + yoe) / 400 == era) by (nonlinear_arith)
        requires
            0 <= yoe < 400,
    ;
    assert((m + 9) % 12 == mp);
    assert(spec_days_from_civil(year, m, d) == z);
    // The day exists in its month; a 29th of February only in a leap year.
    if m == 2 && d == 29 {
        assert(yoe % 4 == 3 && (yoe % 100 != 99 || yoe % 400 == 399));
        vstd::arithmetic::div_mod::lemma_mod_multiples_vanish(100 * era, yoe + 1, 4);
        vstd::arithmetic::div_mod::lemma_mod_multiples_vanish(4 * era, yoe + 1, 100);
        vstd::arithmetic::div_mod::lemma_mod_multiples_vanish(era, yoe + 1, 400);
        assert(year == 4 * (100 * era) + (yoe + 1));
        assert(year == 100 * (4 * era) + (yoe + 1));
        assert(year == 400 * era + (yoe + 1));
        assert(spec_is_leap(year));
    }
}

/// Hinnant's year-of-era, backwards: a day `doy` of year `yoe` of an era
/// (the 366th only in a year whose following February has a 29th) is found
/// again in year `yoe`.
#[verifier::rlimit(100)]
proof fn lemma_era_year_back(yoe: u32, doy: u32)
    by (bit_vector)
    requires
        yoe <= 399,
        doy <= 365,
        doy == 365 ==> yoe % 4 == 3 && (yoe % 100 != 99 || yoe % 400 == 399),
    ensures
        ((365 * yoe + yoe / 4 - yoe / 100 + doy) - (365 * yoe + yoe / 4 - yoe / 100 + doy) / 1460 + (365 * yoe
            + yoe / 4 - yoe / 100 + doy) / 36524 - (365 * yoe + yoe / 4 - yoe / 100 + doy) / 146096) / 365 == yoe,
        365 * yoe + yoe / 4 - yoe / 100 + doy <= 146096,
{
}

/// Hinnant's month of a March-based year, backwards: day `e` (from zero) of
/// month `mp` is found again in month `mp`.
proof fn lemma_month_back(mp: u64, e: u64)
    by (bit_vector)
    requires
        mp <= 11,
        e <= 30,
        mp == 1 || mp == 3 || mp == 6 || mp == 8 ==> e <= 29,
        mp == 11 ==> e <= 28,
    ensures
        (5 * ((153 * mp + 2) / 5 + e) + 2) / 153 == mp,
        (153 * mp + 2) / 5 + e <= 365,
        mp == 11 && e == 28 ==> (153 * mp + 2) / 5 + e == 365,
{
}

/// Civil conversion is a bijection on dates too: a date that exists converts
/// to a day count whose civil date is that date again.
pub proof fn lemma_ymd_round_trip(y: int, m: int, d: int)
    requires
        1 <= m <= 12,
        1 <= d <= spec_days_in_month(y, m),
    ensures
        spec_civil_from_days(spec_days_from_civil(y, m, d)) == (y, m, d),
{
    let y0 = if m <= 2 { y - 1 } else { y };
    let era = y0 / 400;
    let yoe = y0 - era * 400;
    assert(0 <= yoe < 400) by (nonlinear_arith)
        requires
            era == y0 / 400,
            yoe == y0 - era * 400,
    ;
    let mp = (m + 9) % 12;
    let e = d - 1;
    lemma_month_back(mp as u64, e as u64);
    let doy = (153 * mp + 2) / 5 + e;
    if doy == 365 {
        assert(m == 2 && d == 29);
        assert(spec_is_leap(y));
        assert(y == y0 + 1);
        vstd::arithmetic::div_mod::lemma_mod_multiples_vanish(100 * era, yoe + 1, 4);
        vstd::arithmetic::div_mod::lemma_mod_multiples_vanish(4 * era, yoe + 1, 100);
        vstd::arithmetic::div_mod::lemma_mod_multiples_vanish(era, yoe + 1, 400);
        assert(y == 4 * (100 * era) + (yoe + 1));
        assert(y == 100 * (4 * era) + (yoe + 1));
        assert(y == 400 * era + (yoe + 1));
        assert(yoe % 4 == 3 && (yoe % 100 != 99 || yoe % 400 == 399));
    }
    lemma_era_year_back(yoe as u32, doy as u32);
    let doe = 365 * yoe + yoe / 4 - yoe / 100 + doy;
    let z = spec_days_from_civil(y, m, d);
    assert(z == era * 146097 + doe - 719468);
    let zz = z + 719468;
    assert(zz / 146097 == era) by (nonlinear_arith)
        requires
            zz == era * 146097 + doe,
            0 <= doe < 146097,
    ;
    assert(zz - era * 146097 == doe);
    assert(spec_civil_from_days(z) == (y, m, d));
}

proof fn lemma_year_bounds_days(z: int)
    requires
        MIN_YEAR <= year_of_days(z) <= MAX_YEAR,
    ensures
        -146097 - 719468 <= z < 25 * 146097 - 719468,
{
    let zz = z + 719468;
    let era = zz / 146097;
    assert(0 <= zz - era * 146097 < 146097) by (nonlinear_arith)
        requires
            era == zz / 146097,
    ;
    let doe = zz - era * 146097;
    let yoe = (doe - doe / 1460 + doe / 36524 - doe / 146096) / 365;
    assert(0 <= yoe <= 400);
    assert(era >= -1);
    assert(era <= 24);
    assert(zz < (era + 1) * 146097) by (nonlinear_arith)
        requires
            era == zz / 146097,
    ;
    assert(zz >= era * 146097) by (nonlinear_arith)
        requires
            era == zz / 146097,
    ;
}

impl Date {
    /// A date from civil parts, validating the day against the month (so
    /// `2026-02-30` is rejected rather than normalized).
    pub fn from_ymd(year: i64, month: i64, day: i64) -> (r: Result<Date, TemporalError>)
        ensures
            view_result(r) == spec_from_ymd(year as int, month as int, day as int),
    {
        if !(MIN_YEAR <= year && year <= MAX_YEAR) {
            return Err(TemporalError::Range);
        }
        if !(1 <= month && month <= 12) {
            return Err(TemporalError::Component { field: "month", value: crate::text::i64_text(month) });
        }
        if day < 1 || day > days_in_month(year, month) {
            return Err(TemporalError::Component { field: "day", value: crate::text::i64_text(day) });
        }
        let days = days_from_civil(year, month, day);
        proof {
            lemma_valid_days_bounds(year as int, month as int, day as int);
        }
        Ok(Date(days as i32))
    }

    /// The civil year, month and day.
    pub fn ymd(self) -> (r: (i64, i64, i64))
        ensures
            (r.0 as int, r.1 as int, r.2 as int) == spec_civil_from_days(self@),
    {
        civil_from_days(self.0 as i64)
    }

    /// Days since 1970-01-01.
    pub fn days(self) -> (r: i32)
        ensures
            r as int == self@,
    {
        self.0
    }

    /// A date from a raw day count, range-checked.
    pub fn from_days(days: i64) -> (r: Result<Date, TemporalError>)
        ensures
            view_result(r) == if MIN_YEAR <= year_of_days(days as int) <= MAX_YEAR {
                Ok::<int, TemporalErrorView>(days as int)
            } else {
                Err(TemporalErrorView::Range)
            },
    {
        if days < -1_000_000 || days > 3_000_000 {
            proof {
                if MIN_YEAR <= year_of_days(days as int) <= MAX_YEAR {
                    lemma_year_bounds_days(days as int);
                }
            }
            return Err(TemporalError::Range);
        }
        let (year, _, _) = civil_from_days(days);
        if !(MIN_YEAR <= year && year <= MAX_YEAR) {
            return Err(TemporalError::Range);
        }
        proof {
            lemma_year_bounds_days(days as int);
        }
        Ok(Date(days as i32))
    }

    /// Midnight of this day — the exact widening `date as timestamp` performs.
    pub fn at_midnight(self) -> (r: Timestamp)
        ensures
            r@ == self@ * US_PER_DAY,
    {
        proof {
            use_type_invariant(&self);
        }
        assert(-1_000_000 * US_PER_DAY <= self.0 * US_PER_DAY <= 3_000_000 * US_PER_DAY) by (nonlinear_arith)
            requires
                -1_000_000 <= self.0 <= 3_000_000,
        ;
        Timestamp(self.0 as i64 * US_PER_DAY)
    }
}

impl Timestamp {
    /// A timestamp from civil parts and a microsecond-of-second.
    pub fn from_parts(
        year: i64,
        month: i64,
        day: i64,
        hour: i64,
        minute: i64,
        second: i64,
        micros: i64,
    ) -> (r: Result<Timestamp, TemporalError>)
        ensures
            view_result(r) == spec_from_parts(
                year as int,
                month as int,
                day as int,
                hour as int,
                minute as int,
                second as int,
                micros as int,
            ),
    {
        let date = match Date::from_ymd(year, month, day) {
            Ok(date) => date,
            Err(e) => return Err(e),
        };
        if !(0 <= hour && hour <= 23) {
            return Err(TemporalError::Component { field: "hour", value: crate::text::i64_text(hour) });
        }
        if !(0 <= minute && minute <= 59) {
            return Err(TemporalError::Component { field: "minute", value: crate::text::i64_text(minute) });
        }
        if !(0 <= second && second <= 59) {
            return Err(TemporalError::Component { field: "second", value: crate::text::i64_text(second) });
        }
        if !(0 <= micros && micros < US_PER_S) {
            return Err(TemporalError::Component { field: "microsecond", value: crate::text::i64_text(micros) });
        }
        proof {
            use_type_invariant(&date);
        }
        assert(-1_000_000 * US_PER_DAY <= date.0 * US_PER_DAY <= 3_000_000 * US_PER_DAY) by (nonlinear_arith)
            requires
                -1_000_000 <= date.0 <= 3_000_000,
        ;
        let base = date.0 as i64 * US_PER_DAY + hour * US_PER_HOUR + minute * US_PER_MIN + second
            * US_PER_S;
        Ok(Timestamp(base + micros))
    }

    /// Civil year, month, day, hour, minute, second, microsecond.
    pub fn parts(self) -> (r: (i64, i64, i64, i64, i64, i64, i64))
        ensures
            (r.0 as int, r.1 as int, r.2 as int, r.3 as int, r.4 as int, r.5 as int, r.6 as int)
                == spec_parts(self@),
    {
        let days = div_floor(self.0, US_PER_DAY);
        let rem = mod_floor(self.0, US_PER_DAY);
        assert(days >= -106751992) by (nonlinear_arith)
            requires
                days == self.0 / US_PER_DAY,
                self.0 >= i64::MIN,
        ;
        assert(days <= 106751992) by (nonlinear_arith)
            requires
                days == self.0 / US_PER_DAY,
                self.0 <= i64::MAX,
        ;
        let (year, month, day) = civil_from_days(days);
        (
            year,
            month,
            day,
            rem / US_PER_HOUR,
            (rem % US_PER_HOUR) / US_PER_MIN,
            (rem % US_PER_MIN) / US_PER_S,
            rem % US_PER_S,
        )
    }

    /// Microseconds since 1970-01-01T00:00:00.
    pub fn micros(self) -> (r: i64)
        ensures
            r as int == self@,
    {
        self.0
    }

    /// A timestamp from a raw microsecond count, range-checked.
    pub fn from_micros(micros: i64) -> (r: Result<Timestamp, TemporalError>)
        ensures
            view_result(r) == if MIN_YEAR <= year_of_days(micros / US_PER_DAY) <= MAX_YEAR {
                Ok::<int, TemporalErrorView>(micros as int)
            } else {
                Err(TemporalErrorView::Range)
            },
    {
        let days = div_floor(micros, US_PER_DAY);
        assert(-106751992 <= days <= 106751992) by (nonlinear_arith)
            requires
                days == micros / US_PER_DAY,
                i64::MIN <= micros <= i64::MAX,
        ;
        let (year, _, _) = civil_from_days(days);
        if !(MIN_YEAR <= year && year <= MAX_YEAR) {
            return Err(TemporalError::Range);
        }
        Ok(Timestamp(micros))
    }

    /// The civil day this timestamp falls in.
    pub fn date(self) -> (r: Date)
        ensures
            r@ == ((self@ / US_PER_DAY as int) as i32) as int,
    {
        proof {
            use_type_invariant(&self);
        }
        let days = div_floor(self.0, US_PER_DAY);
        assert(-1_000_000 <= days <= 3_000_000) by (nonlinear_arith)
            requires
                days == self.0 / US_PER_DAY,
                -1_000_000 * US_PER_DAY <= self.0 < 3_000_001 * US_PER_DAY,
        ;
        Date(days as i32)
    }
}

impl Duration {
    /// A duration from a microsecond count.
    pub fn from_micros(micros: i64) -> (r: Duration)
        ensures
            r@ == micros,
    {
        Duration(micros)
    }

    /// The microsecond count.
    pub fn micros(self) -> (r: i64)
        ensures
            r as int == self@,
    {
        self.0
    }
}


// --- Reading: one grammar for the literal, the cast and import inference ---

/// A result over an `i64`, by view.
pub open spec fn view_i64(r: Result<i64, TemporalError>) -> Result<int, TemporalErrorView> {
    match r {
        Ok(v) => Ok(v as int),
        Err(e) => Err(e@),
    }
}

/// A run of decimal digits read as an `i64`: the shape is wrong unless the
/// text is a non-empty run of ASCII digits, and the range is exceeded when the
/// value does not fit.
pub open spec fn spec_parse_digits(s: Seq<char>) -> Result<int, TemporalErrorView> {
    if s.len() == 0 || !all_digits(s) {
        Err(TemporalErrorView::Shape)
    } else if digits_value(s) > i64::MAX {
        Err(TemporalErrorView::Range)
    } else {
        Ok(digits_value(s))
    }
}

/// The year, month and day fields of a fixed-width `YYYY-MM-DD`.
pub open spec fn spec_split_date(t: Seq<char>) -> Result<(int, int, int), TemporalErrorView> {
    if t.len() != 10 || t[4] != '-' || t[7] != '-' {
        Err(TemporalErrorView::Shape)
    } else {
        match spec_parse_digits(t.subrange(0, 4)) {
            Err(e) => Err(e),
            Ok(y) => match spec_parse_digits(t.subrange(5, 7)) {
                Err(e) => Err(e),
                Ok(m) => match spec_parse_digits(t.subrange(8, 10)) {
                    Err(e) => Err(e),
                    Ok(d) => Ok((y, m, d)),
                },
            },
        }
    }
}

/// A date in ISO-8601 extended form, `YYYY-MM-DD`, as a day count.
pub open spec fn spec_parse_date(t: Seq<char>) -> Result<int, TemporalErrorView> {
    match spec_split_date(t) {
        Err(e) => Err(e),
        Ok((y, m, d)) => spec_from_ymd(y, m, d),
    }
}

/// The microseconds a fractional second of up to six digits denotes.
pub open spec fn spec_fraction_micros(f: Seq<char>) -> Result<int, TemporalErrorView> {
    if f.len() == 0 || f.len() > 6 || !all_digits(f) {
        Err(TemporalErrorView::Component("fractional second"@, f))
    } else {
        Ok(digits_value(f) * pow10((6 - f.len()) as nat))
    }
}

/// A timestamp: a date, `T`, `HH:MM:SS`, and an optional fractional second of
/// up to six digits, as a microsecond count. No zone offset is accepted.
pub open spec fn spec_parse_timestamp(t: Seq<char>) -> Result<int, TemporalErrorView> {
    match first_index(t, 'T') {
        None => Err(TemporalErrorView::Shape),
        Some(i) => {
            let time_text = t.skip(i + 1);
            match spec_split_date(t.take(i)) {
                Err(e) => Err(e),
                Ok((y, mo, d)) => {
                    let clock = match first_index(time_text, '.') {
                        Some(j) => time_text.take(j),
                        None => time_text,
                    };
                    if clock.len() != 8 || clock[2] != ':' || clock[5] != ':' {
                        Err(TemporalErrorView::Shape)
                    } else {
                        match spec_parse_digits(clock.subrange(0, 2)) {
                            Err(e) => Err(e),
                            Ok(h) => match spec_parse_digits(clock.subrange(3, 5)) {
                                Err(e) => Err(e),
                                Ok(mi) => match spec_parse_digits(clock.subrange(6, 8)) {
                                    Err(e) => Err(e),
                                    Ok(s) => {
                                        let micros = match first_index(time_text, '.') {
                                            Some(j) => spec_fraction_micros(time_text.skip(j + 1)),
                                            None => Ok(0),
                                        };
                                        match micros {
                                            Err(e) => Err(e),
                                            Ok(us) => spec_from_parts(y, mo, d, h, mi, s, us),
                                        }
                                    },
                                },
                            },
                        }
                    }
                },
            }
        },
    }
}

/// Reads the digits `v[lo..hi]` as an `i64`.
fn parse_digits(v: &[char], lo: usize, hi: usize) -> (r: Result<i64, TemporalError>)
    requires
        lo <= hi <= v.len(),
    ensures
        view_i64(r) == spec_parse_digits(v@.subrange(lo as int, hi as int)),
{
    let ghost s = v@.subrange(lo as int, hi as int);
    if lo == hi {
        return Err(TemporalError::Shape);
    }
    let mut k = lo;
    while k < hi
        invariant
            lo <= k <= hi <= v.len(),
            s == v@.subrange(lo as int, hi as int),
            forall|j: int| lo <= j < k ==> is_digit(#[trigger] v@[j]),
        decreases hi - k,
    {
        if !char_is_digit(v[k]) {
            proof {
                assert(s[k - lo] == v@[k as int]);
            }
            return Err(TemporalError::Shape);
        }
        k += 1;
    }
    assert(all_digits(s)) by {
        assert forall|j: int| 0 <= j < s.len() implies is_digit(#[trigger] s[j]) by {
            assert(s[j] == v@[lo + j]);
        }
    }
    let mut acc: i64 = 0;
    let mut i = lo;
    while i < hi
        invariant
            lo <= i <= hi <= v.len(),
            s == v@.subrange(lo as int, hi as int),
            all_digits(s),
            acc as int == digits_value(s.take(i - lo)),
            acc >= 0,
        decreases hi - i,
    {
        proof {
            assert(s[i - lo] == v@[i as int]);
        }
        let d = char_digit_value(v[i]) as i64;
        proof {
            assert(s.take(i - lo + 1).drop_last() =~= s.take(i - lo));
            assert(s.take(i - lo + 1).last() == v@[i as int]);
        }
        let next = match acc.checked_mul(10) {
            Some(t) => t.checked_add(d),
            None => None,
        };
        match next {
            Some(n) => {
                acc = n;
            },
            None => {
                proof {
                    crate::text::lemma_digits_value_prefix(s, i - lo + 1);
                }
                return Err(TemporalError::Range);
            },
        }
        i += 1;
    }
    assert(s.take(hi - lo) =~= s);
    Ok(acc)
}

/// Reads the fixed-width fields of `v[lo..hi]` as `YYYY-MM-DD`.
fn split_date(v: &[char], lo: usize, hi: usize) -> (r: Result<(i64, i64, i64), TemporalError>)
    requires
        lo <= hi <= v.len(),
    ensures
        match r {
            Ok((y, m, d)) => spec_split_date(v@.subrange(lo as int, hi as int)) == Ok::<
                (int, int, int),
                TemporalErrorView,
            >((y as int, m as int, d as int)),
            Err(e) => spec_split_date(v@.subrange(lo as int, hi as int)) == Err::<
                (int, int, int),
                TemporalErrorView,
            >(e@),
        },
        r matches Ok((y, m, d)) ==> 0 <= y <= 9999 && 0 <= m <= 99 && 0 <= d <= 99,
{
    let ghost t = v@.subrange(lo as int, hi as int);
    if hi - lo != 10 || v[lo + 4] != '-' || v[lo + 7] != '-' {
        return Err(TemporalError::Shape);
    }
    proof {
        assert(t.subrange(0, 4) =~= v@.subrange(lo as int, lo + 4));
        assert(t.subrange(5, 7) =~= v@.subrange(lo + 5, lo + 7));
        assert(t.subrange(8, 10) =~= v@.subrange(lo + 8, lo + 10));
    }
    let y = match parse_digits(v, lo, lo + 4) {
        Ok(y) => y,
        Err(e) => return Err(e),
    };
    let m = match parse_digits(v, lo + 5, lo + 7) {
        Ok(m) => m,
        Err(e) => return Err(e),
    };
    let d = match parse_digits(v, lo + 8, lo + 10) {
        Ok(d) => d,
        Err(e) => return Err(e),
    };
    proof {
        lemma_small_digits(t.subrange(0, 4));
        lemma_small_digits(t.subrange(5, 7));
        lemma_small_digits(t.subrange(8, 10));
        reveal_with_fuel(pow10, 5);
    }
    Ok((y, m, d))
}

proof fn lemma_small_digits(s: Seq<char>)
    requires
        all_digits(s),
    ensures
        0 <= digits_value(s) < pow10(s.len()),
    decreases s.len(),
{
    crate::text::lemma_pow10_pos(s.len());
    if s.len() > 0 {
        let p = s.drop_last();
        assert(all_digits(p)) by {
            assert forall|i: int| 0 <= i < p.len() implies is_digit(#[trigger] p[i]) by {
                assert(p[i] == s[i]);
            }
        }
        lemma_small_digits(p);
        assert(is_digit(s[s.len() - 1]));
        let vp = digits_value(p);
        let pp = pow10(p.len());
        assert(10 * vp + 9 < 10 * pp) by (nonlinear_arith)
            requires
                vp < pp,
        ;
    }
}

/// Reads a date in ISO-8601 extended form, `YYYY-MM-DD`.
pub fn parse_date(text: &str) -> (r: Result<Date, TemporalError>)
    ensures
        view_result(r) == spec_parse_date(text@),
{
    let v = crate::text::chars_of(text);
    proof {
        assert(v@.subrange(0, v@.len() as int) =~= v@);
    }
    parse_date_chars(&v, 0, v.len())
}

fn parse_date_chars(v: &[char], lo: usize, hi: usize) -> (r: Result<Date, TemporalError>)
    requires
        lo <= hi <= v.len(),
    ensures
        view_result(r) == spec_parse_date(v@.subrange(lo as int, hi as int)),
{
    match split_date(v, lo, hi) {
        Ok((y, m, d)) => Date::from_ymd(y, m, d),
        Err(e) => Err(e),
    }
}

/// Reads a timestamp: a date, `T`, `HH:MM:SS`, and an optional fractional
/// second of up to six digits. A zone offset is not accepted: the timestamp is
/// civil, so there is nothing for one to mean.
pub fn parse_timestamp(text: &str) -> (r: Result<Timestamp, TemporalError>)
    ensures
        view_result(r) == spec_parse_timestamp(text@),
{
    let v = crate::text::chars_of(text);
    proof {
        assert(v@.subrange(0, v@.len() as int) =~= v@);
    }
    parse_timestamp_chars(&v, 0, v.len())
}

fn find_char_in(v: &[char], lo: usize, hi: usize, c: char) -> (r: Option<usize>)
    requires
        lo <= hi <= v.len(),
    ensures
        r matches Some(i) ==> lo <= i < hi && first_index(v@.subrange(lo as int, hi as int), c)
            == Some(i - lo),
        r is None ==> first_index(v@.subrange(lo as int, hi as int), c) is None,
{
    let mut i = lo;
    while i < hi && v[i] != c
        invariant
            lo <= i <= hi <= v.len(),
            forall|j: int| lo <= j < i ==> #[trigger] v@[j] != c,
        decreases hi - i,
    {
        i += 1;
    }
    proof {
        let s = v@.subrange(lo as int, hi as int);
        assert forall|j: int| 0 <= j < i - lo implies #[trigger] s[j] != c by {
            assert(s[j] == v@[lo + j]);
        }
        if i < hi {
            assert(s[i - lo] == v@[i as int]);
        }
        crate::text::lemma_first_index(s, c, i - lo);
    }
    if i < hi {
        Some(i)
    } else {
        None
    }
}

#[verifier::rlimit(40)]
fn parse_timestamp_chars(v: &[char], lo: usize, hi: usize) -> (r: Result<Timestamp, TemporalError>)
    requires
        lo <= hi <= v.len(),
    ensures
        view_result(r) == spec_parse_timestamp(v@.subrange(lo as int, hi as int)),
{
    let ghost t = v@.subrange(lo as int, hi as int);
    let tpos = match find_char_in(v, lo, hi, 'T') {
        Some(i) => i,
        None => return Err(TemporalError::Shape),
    };
    let ghost time_text = t.skip(tpos - lo + 1);
    assert(t.take(tpos - lo) =~= v@.subrange(lo as int, tpos as int));
    assert(time_text =~= v@.subrange(tpos + 1, hi as int));
    let (year, month, day) = match split_date(v, lo, tpos) {
        Ok(parts) => parts,
        Err(e) => return Err(e),
    };
    let dot = find_char_in(v, tpos + 1, hi, '.');
    let clock_end = match dot {
        Some(j) => j,
        None => hi,
    };
    let ghost clock = v@.subrange(tpos + 1, clock_end as int);
    assert(clock =~= match first_index(time_text, '.') {
        Some(j) => time_text.take(j),
        None => time_text,
    });
    if clock_end - (tpos + 1) != 8 || v[tpos + 3] != ':' || v[tpos + 6] != ':' {
        return Err(TemporalError::Shape);
    }
    assert(clock.subrange(0, 2) =~= v@.subrange(tpos + 1, tpos + 3));
    assert(clock.subrange(3, 5) =~= v@.subrange(tpos + 4, tpos + 6));
    assert(clock.subrange(6, 8) =~= v@.subrange(tpos + 7, tpos + 9));
    let hour = match parse_digits(v, tpos + 1, tpos + 3) {
        Ok(h) => h,
        Err(e) => return Err(e),
    };
    let minute = match parse_digits(v, tpos + 4, tpos + 6) {
        Ok(m) => m,
        Err(e) => return Err(e),
    };
    let second = match parse_digits(v, tpos + 7, tpos + 9) {
        Ok(s) => s,
        Err(e) => return Err(e),
    };
    proof {
        lemma_small_digits(clock.subrange(0, 2));
        lemma_small_digits(clock.subrange(3, 5));
        lemma_small_digits(clock.subrange(6, 8));
    }
    let micros: i64 = match dot {
        None => 0,
        Some(j) => {
            let ghost f = v@.subrange(j + 1, hi as int);
            assert(f =~= time_text.skip(j - tpos));
            let flen = hi - (j + 1);
            let mut all = true;
            let mut k = j + 1;
            while k < hi
                invariant
                    j + 1 <= k <= hi <= v.len(),
                    all == forall|q: int| j + 1 <= q < k ==> is_digit(#[trigger] v@[q]),
                decreases hi - k,
            {
                if !char_is_digit(v[k]) {
                    all = false;
                }
                k += 1;
            }
            assert(all == all_digits(f)) by {
                if all {
                    assert forall|q: int| 0 <= q < f.len() implies is_digit(#[trigger] f[q]) by {
                        assert(f[q] == v@[j + 1 + q]);
                    }
                } else {
                    let q = choose|q: int| j + 1 <= q < hi && !is_digit(#[trigger] v@[q]);
                    assert(f[q - j - 1] == v@[q]);
                }
            }
            if flen == 0 || flen > 6 || !all {
                let value = sub_string(v, j + 1, hi);
                return Err(TemporalError::Component { field: "fractional second", value });
            }
            proof {
                lemma_small_digits(f);
                lemma_pow10_small(f.len());
                lemma_pow10_small(6);
            }
            let digits = match parse_digits(v, j + 1, hi) {
                Ok(d) => d,
                Err(e) => return Err(e),
            };
            let scale = pow10_exec((6 - flen) as u32);
            proof {
                lemma_pow10_small((6 - flen) as nat);
                crate::text::lemma_pow10_pos((6 - flen) as nat);
                assert(digits * scale <= 999999 * 100000) by (nonlinear_arith)
                    requires
                        0 <= digits <= 999999,
                        1 <= scale <= 100000,
                ;
            }
            digits * scale
        },
    };
    proof {
        assert(micros >= 0);
        assert(micros < 1000000) by {
            if let Some(j) = dot {
                let f = v@.subrange(j + 1, hi as int);
                lemma_fraction_bound(f);
            }
        }
    }
    Timestamp::from_parts(year, month, day, hour, minute, second, micros)
}

proof fn lemma_fraction_bound(f: Seq<char>)
    requires
        1 <= f.len() <= 6,
        all_digits(f),
    ensures
        digits_value(f) * pow10((6 - f.len()) as nat) < 1000000,
{
    lemma_small_digits(f);
    lemma_pow10_small((6 - f.len()) as nat);
    lemma_pow10_small(f.len());
    let v = digits_value(f);
    let a = pow10(f.len());
    let b = pow10((6 - f.len()) as nat);
    lemma_pow10_add(f.len(), (6 - f.len()) as nat);
    assert(f.len() + (6 - f.len()) as nat == 6);
    assert(pow10(6) == 1000000) by {
        reveal_with_fuel(pow10, 7);
    }
    assert(a * b == 1000000);
    assert(v * b < a * b) by (nonlinear_arith)
        requires
            v < a,
            b >= 1,
    ;
}

proof fn lemma_pow10_add(a: nat, b: nat)
    ensures
        pow10(a) * pow10(b) == pow10(a + b),
    decreases a,
{
    if a > 0 {
        lemma_pow10_add((a - 1) as nat, b);
        let x = pow10((a - 1) as nat);
        let y = pow10(b);
        assert(pow10(a) == 10 * x);
        assert(((a - 1) as nat + b) as nat == (a + b - 1) as nat);
        assert(pow10(a + b) == 10 * pow10((a + b - 1) as nat));
        assert(10 * x * y == 10 * (x * y)) by (nonlinear_arith);
    } else {
        assert(pow10(a) == 1);
        assert(1 * pow10(b) == pow10(b));
        assert(a + b == b);
    }
}

proof fn lemma_pow10_small(n: nat)
    requires
        n <= 6,
    ensures
        pow10(n) <= 1000000,
        n == 0 ==> pow10(n) == 1,
        n == 6 ==> pow10(n) == 1000000,
        n <= 5 ==> pow10(n) <= 100000,
{
    reveal_with_fuel(pow10, 7);
}

/// `10^n` for small `n`.
fn pow10_exec(n: u32) -> (r: i64)
    requires
        n <= 18,
    ensures
        r as int == pow10(n as nat),
{
    let mut r: i64 = 1;
    let mut i: u32 = 0;
    while i < n
        invariant
            i <= n <= 18,
            r as int == pow10(i as nat),
            r <= 1_000_000_000_000_000_000,
        decreases n - i,
    {
        proof {
            lemma_pow10_bound(i as nat);
        }
        r = r * 10;
        i += 1;
    }
    r
}

proof fn lemma_pow10_bound(n: nat)
    requires
        n < 18,
    ensures
        pow10(n) <= 100_000_000_000_000_000,
{
    reveal_with_fuel(pow10, 19);
}


// --- Durations ---

/// The friendly-form unit at the head of `rest`, longest suffix first so `ms`
/// is never read as `m` then `s`: its length, its microseconds, and its rank
/// in the largest-first order (d, h, m, s, ms, us).
pub open spec fn spec_friendly_unit(rest: Seq<char>) -> Option<(nat, int, nat)> {
    if rest.len() >= 2 && rest[0] == 'm' && rest[1] == 's' {
        Some((2, US_PER_MS as int, 4))
    } else if rest.len() >= 2 && rest[0] == 'u' && rest[1] == 's' {
        Some((2, 1, 5))
    } else if rest.len() >= 1 && rest[0] == 'd' {
        Some((1, US_PER_DAY as int, 0))
    } else if rest.len() >= 1 && rest[0] == 'h' {
        Some((1, US_PER_HOUR as int, 1))
    } else if rest.len() >= 1 && rest[0] == 'm' {
        Some((1, US_PER_MIN as int, 2))
    } else if rest.len() >= 1 && rest[0] == 's' {
        Some((1, US_PER_S as int, 3))
    } else {
        None
    }
}

/// The unit-ish text at the head of `rest`, for an unknown-unit error.
pub open spec fn unit_text(rest: Seq<char>) -> Seq<char> {
    rest.take(alpha_run(rest) as int)
}

/// Reads `value unit` components from `rest` onto `total`, each unit strictly
/// smaller than the last (`last_rank`, or -1 before the first).
pub open spec fn spec_friendly(rest: Seq<char>, last_rank: int, total: int) -> Result<int, TemporalErrorView>
    decreases rest.len(),
{
    if rest.len() == 0 {
        Ok(total)
    } else {
        let n = digit_run(rest);
        if n == 0 {
            Err(TemporalErrorView::Shape)
        } else if n > rest.len() {
            Err(TemporalErrorView::Shape)
        } else {
            match spec_parse_digits(rest.take(n as int)) {
                Err(e) => Err(e),
                Ok(value) => {
                    let after = rest.skip(n as int);
                    match spec_friendly_unit(after) {
                        None => Err(TemporalErrorView::Unit(unit_text(after))),
                        Some((ulen, unit_us, rank)) => if rank <= last_rank {
                            Err(TemporalErrorView::Order)
                        } else if total + value * unit_us > i64::MAX {
                            Err(TemporalErrorView::Range)
                        } else if n + ulen > rest.len() {
                            Err(TemporalErrorView::Shape)
                        } else {
                            spec_friendly(rest.skip((n + ulen) as int), rank as int, total + value * unit_us)
                        },
                    }
                },
            }
        }
    }
}

/// The friendly form: `1d12h`, `90m`, `500ms`, `0s`.
pub open spec fn spec_parse_friendly(text: Seq<char>) -> Result<int, TemporalErrorView> {
    if text.len() == 0 {
        Err(TemporalErrorView::Shape)
    } else {
        spec_friendly(text, -1, 0)
    }
}

/// `digits[.digits]` at the head of `text`: the whole part, the fractional
/// digits and the tail, as the end index of the whole part, and the start and
/// end of the fraction.
pub open spec fn spec_split_decimal(text: Seq<char>) -> Result<(int, Seq<char>, int), TemporalErrorView> {
    let whole_len = digit_run(text) as int;
    if whole_len == 0 {
        Err(TemporalErrorView::Shape)
    } else {
        match spec_parse_digits(text.take(whole_len)) {
            Err(e) => Err(e),
            Ok(whole) => {
                let rest = text.skip(whole_len);
                if rest.len() > 0 && rest[0] == '.' {
                    let after = rest.skip(1);
                    let frac_len = digit_run(after) as int;
                    if frac_len == 0 {
                        Err(TemporalErrorView::Shape)
                    } else {
                        Ok((whole, after.take(frac_len), whole_len + 1 + frac_len))
                    }
                } else {
                    Ok((whole, Seq::<char>::empty(), whole_len))
                }
            },
        }
    }
}

/// The microseconds a fractional component of a unit denotes, refusing a
/// precision the value model cannot hold rather than rounding it away.
pub open spec fn spec_fractional_micros(fraction: Seq<char>, unit_us: int) -> Result<int, TemporalErrorView> {
    if fraction.len() == 0 {
        Ok(0)
    } else {
        match spec_parse_digits(fraction) {
            Err(e) => Err(e),
            Ok(digits) => if fraction.len() > 18 {
                Err(TemporalErrorView::Range)
            } else if digits * unit_us > i64::MAX {
                Err(TemporalErrorView::Range)
            } else if (digits * unit_us) % (pow10(fraction.len()) as int) != 0 {
                Err(TemporalErrorView::Component("fractional component"@, fraction))
            } else {
                Ok((digits * unit_us) / (pow10(fraction.len()) as int))
            },
        }
    }
}

/// The ISO unit at the head of `rest`: `W`/`D` before the `T`, `H`/`M`/`S`
/// after it. `Y` and `M` before the `T` are calendar units, which are excluded.
pub open spec fn spec_iso_unit(rest: Seq<char>, time: bool) -> Option<int> {
    if rest.len() == 0 {
        None
    } else if !time {
        if rest[0] == 'W' {
            Some(7 * US_PER_DAY as int)
        } else if rest[0] == 'D' {
            Some(US_PER_DAY as int)
        } else {
            None
        }
    } else {
        if rest[0] == 'H' {
            Some(US_PER_HOUR as int)
        } else if rest[0] == 'M' {
            Some(US_PER_MIN as int)
        } else if rest[0] == 'S' {
            Some(US_PER_S as int)
        } else {
            None
        }
    }
}

/// Reads the components of one part of an ISO duration onto `total`.
pub open spec fn spec_iso_part(rest: Seq<char>, time: bool, total: int) -> Result<int, TemporalErrorView>
    decreases rest.len(),
{
    if rest.len() == 0 {
        Ok(total)
    } else {
        match spec_split_decimal(rest) {
            Err(e) => Err(e),
            Ok((whole, fraction, tail_start)) => {
                let tail = rest.skip(tail_start);
                match spec_iso_unit(tail, time) {
                    None => Err(TemporalErrorView::Unit(unit_text(tail))),
                    Some(unit_us) => if whole * unit_us > i64::MAX {
                        Err(TemporalErrorView::Range)
                    } else {
                        match spec_fractional_micros(fraction, unit_us) {
                            Err(e) => Err(e),
                            Ok(frac_us) => if whole * unit_us + frac_us > i64::MAX || total + whole
                                * unit_us + frac_us > i64::MAX {
                                Err(TemporalErrorView::Range)
                            } else if tail_start < 1 || tail_start + 1 > rest.len() {
                                Err(TemporalErrorView::Shape)
                            } else {
                                spec_iso_part(
                                    rest.skip(tail_start + 1),
                                    time,
                                    total + whole * unit_us + frac_us,
                                )
                            },
                        }
                    },
                }
            },
        }
    }
}

/// The ISO-8601 alias `P[nW][nD][T[nH][nM][nS]]` (weeks are seven days), with
/// `text[0] == 'P'`.
pub open spec fn spec_parse_iso(text: Seq<char>) -> Result<int, TemporalErrorView> {
    let body = text.skip(1);
    let (date_part, time_part) = match first_index(body, 'T') {
        Some(i) => (body.take(i), body.skip(i + 1)),
        None => (body, Seq::<char>::empty()),
    };
    if date_part.len() == 0 && time_part.len() == 0 {
        Err(TemporalErrorView::Shape)
    } else {
        match spec_iso_part(date_part, false, 0) {
            Err(e) => Err(e),
            Ok(total) => spec_iso_part(time_part, true, total),
        }
    }
}

/// A duration in the friendly form or the ISO alias, optionally negated by a
/// leading `-`, in microseconds.
pub open spec fn spec_parse_duration(text: Seq<char>) -> Result<int, TemporalErrorView> {
    let negative = text.len() > 0 && text[0] == '-';
    let body = if negative {
        text.skip(1)
    } else {
        text
    };
    let magnitude = if body.len() > 0 && body[0] == 'P' {
        spec_parse_iso(body)
    } else {
        spec_parse_friendly(body)
    };
    match magnitude {
        Err(e) => Err(e),
        Ok(m) => Ok(
            if negative {
                -m
            } else {
                m
            },
        ),
    }
}

proof fn lemma_digits_ok_nonneg(s: Seq<char>)
    ensures
        spec_parse_digits(s) matches Ok(v) ==> 0 <= v <= i64::MAX,
{
    if s.len() > 0 && all_digits(s) {
        crate::text::lemma_digits_value_nonneg(s);
    }
}

proof fn lemma_digit_run_stops(ds: Seq<char>, tail: Seq<char>)
    requires
        all_digits(ds),
        tail.len() > 0,
        !is_digit(tail[0]),
    ensures
        digit_run(ds + tail) == ds.len(),
    decreases ds.len(),
{
    if ds.len() > 0 {
        assert((ds + tail).drop_first() =~= ds.drop_first() + tail);
        assert((ds + tail)[0] == ds[0]);
        lemma_digit_run_stops(ds.drop_first(), tail);
    } else {
        assert(ds + tail =~= tail);
    }
}

/// An ISO duration of one time component, `PT<digits><unit>`, is its value
/// times the unit's length.
proof fn lemma_iso_single_time_part(ds: Seq<char>, u: char)
    requires
        ds.len() > 0,
        all_digits(ds),
        !is_digit(u),
        u != '.',
        spec_iso_unit(seq![u], true) is Some,
        0 <= digits_value(ds) * spec_iso_unit(seq![u], true)->0 <= i64::MAX,
    ensures
        spec_parse_duration(seq!['P', 'T'] + ds + seq![u]) == Ok::<int, TemporalErrorView>(
            digits_value(ds) * spec_iso_unit(seq![u], true)->0,
        ),
{
    let c = spec_iso_unit(seq![u], true)->0;
    let n = digits_value(ds);
    crate::text::lemma_digits_value_nonneg(ds);
    assert(c >= 1);
    assert(n <= n * c) by (nonlinear_arith)
        requires
            n >= 0,
            c >= 1,
    ;
    let text = seq!['P', 'T'] + ds + seq![u];
    let body = text.skip(1);
    assert(body =~= seq!['T'] + (ds + seq![u]));
    assert(first_index(body, 'T') == Some(0int));
    let rest = ds + seq![u];
    assert(body.take(0) =~= Seq::<char>::empty());
    assert(body.skip(1) =~= rest);
    lemma_digit_run_stops(ds, seq![u]);
    assert(rest.take(ds.len() as int) =~= ds);
    assert(rest.skip(ds.len() as int) =~= seq![u]);
    assert(spec_split_decimal(rest) == Ok::<(int, Seq<char>, int), TemporalErrorView>((n, Seq::<char>::empty(), ds.len() as int)));
    assert(rest.skip(ds.len() as int + 1) =~= Seq::<char>::empty());
    assert(spec_iso_part(Seq::<char>::empty(), true, n * c) == Ok::<int, TemporalErrorView>(n * c));
    assert(spec_iso_part(rest, true, 0) == Ok::<int, TemporalErrorView>(n * c));
    assert(spec_iso_part(Seq::<char>::empty(), false, 0) == Ok::<int, TemporalErrorView>(0));
    assert(spec_parse_iso(text) == Ok::<int, TemporalErrorView>(n * c));
}

proof fn lemma_no_index(s: Seq<char>, c: char)
    requires
        forall|i: int| 0 <= i < s.len() ==> s[i] != c,
    ensures
        first_index(s, c) is None,
    decreases s.len(),
{
    if s.len() > 0 {
        lemma_no_index(s.drop_first(), c);
    }
}

/// An ISO duration of one date component, `P<digits><unit>`, is its value
/// times the unit's length.
proof fn lemma_iso_single_date_part(ds: Seq<char>, u: char)
    requires
        ds.len() > 0,
        all_digits(ds),
        !is_digit(u),
        u != '.',
        u != 'T',
        spec_iso_unit(seq![u], false) is Some,
        0 <= digits_value(ds) * spec_iso_unit(seq![u], false)->0 <= i64::MAX,
    ensures
        spec_parse_duration(seq!['P'] + ds + seq![u]) == Ok::<int, TemporalErrorView>(
            digits_value(ds) * spec_iso_unit(seq![u], false)->0,
        ),
{
    let c = spec_iso_unit(seq![u], false)->0;
    let n = digits_value(ds);
    crate::text::lemma_digits_value_nonneg(ds);
    assert(c >= 1);
    assert(n <= n * c) by (nonlinear_arith)
        requires
            n >= 0,
            c >= 1,
    ;
    let text = seq!['P'] + ds + seq![u];
    let rest = ds + seq![u];
    assert(text.skip(1) =~= rest);
    assert forall|i: int| 0 <= i < rest.len() implies rest[i] != 'T' by {
        if i < ds.len() {
            assert(rest[i] == ds[i]);
            assert(is_digit(ds[i]));
        }
    }
    lemma_no_index(rest, 'T');
    lemma_digit_run_stops(ds, seq![u]);
    assert(rest.take(ds.len() as int) =~= ds);
    assert(rest.skip(ds.len() as int) =~= seq![u]);
    assert(spec_split_decimal(rest) == Ok::<(int, Seq<char>, int), TemporalErrorView>((n, Seq::<char>::empty(), ds.len() as int)));
    assert(rest.skip(ds.len() as int + 1) =~= Seq::<char>::empty());
    assert(spec_iso_part(Seq::<char>::empty(), false, n * c) == Ok::<int, TemporalErrorView>(n * c));
    assert(spec_iso_part(rest, false, 0) == Ok::<int, TemporalErrorView>(n * c));
    assert(spec_iso_part(Seq::<char>::empty(), true, n * c) == Ok::<int, TemporalErrorView>(n * c));
    assert(spec_parse_iso(text) == Ok::<int, TemporalErrorView>(n * c));
}

/// The friendly form's units: for a run of digits with value `n`, `<n>d`,
/// `<n>h`, `<n>m`, `<n>s`, `<n>ms` and `<n>us` are `n` days, hours, minutes,
/// seconds, milliseconds and microseconds (86 400 000 000, 3 600 000 000,
/// 60 000 000, 1 000 000, 1 000 and 1 us), wherever they fit in an `i64`.
pub proof fn lemma_friendly_units(ds: Seq<char>)
    requires
        ds.len() > 0,
        all_digits(ds),
    ensures
        digits_value(ds) * 86_400_000_000 <= i64::MAX ==> spec_parse_duration(ds + seq!['d'])
            == Ok::<int, TemporalErrorView>(digits_value(ds) * 86_400_000_000),
        digits_value(ds) * 3_600_000_000 <= i64::MAX ==> spec_parse_duration(ds + seq!['h'])
            == Ok::<int, TemporalErrorView>(digits_value(ds) * 3_600_000_000),
        digits_value(ds) * 60_000_000 <= i64::MAX ==> spec_parse_duration(ds + seq!['m'])
            == Ok::<int, TemporalErrorView>(digits_value(ds) * 60_000_000),
        digits_value(ds) * 1_000_000 <= i64::MAX ==> spec_parse_duration(ds + seq!['s'])
            == Ok::<int, TemporalErrorView>(digits_value(ds) * 1_000_000),
        digits_value(ds) * 1_000 <= i64::MAX ==> spec_parse_duration(ds + seq!['m', 's'])
            == Ok::<int, TemporalErrorView>(digits_value(ds) * 1_000),
        digits_value(ds) <= i64::MAX ==> spec_parse_duration(ds + seq!['u', 's'])
            == Ok::<int, TemporalErrorView>(digits_value(ds)),
{
    crate::text::lemma_digits_value_nonneg(ds);
    let n = digits_value(ds);
    assert(n * 86_400_000_000 >= 0 && n * 3_600_000_000 >= 0 && n * 60_000_000 >= 0 && n * 1_000_000 >= 0 && n
        * 1_000 >= 0) by (nonlinear_arith)
        requires
            n >= 0,
    ;
    if n * 86_400_000_000 <= i64::MAX {
        lemma_friendly_single(ds, seq!['d']);
    }
    if n * 3_600_000_000 <= i64::MAX {
        lemma_friendly_single(ds, seq!['h']);
    }
    if n * 60_000_000 <= i64::MAX {
        lemma_friendly_single(ds, seq!['m']);
    }
    if n * 1_000_000 <= i64::MAX {
        lemma_friendly_single(ds, seq!['s']);
    }
    if n * 1_000 <= i64::MAX {
        lemma_friendly_single(ds, seq!['m', 's']);
    }
    if n <= i64::MAX {
        assert(n * 1 == n);
        lemma_friendly_single(ds, seq!['u', 's']);
    }
}

/// An ISO duration of one date component whose unit is not a date unit is
/// refused.
proof fn lemma_iso_date_part_refused(ds: Seq<char>, u: char)
    requires
        ds.len() > 0,
        all_digits(ds),
        !is_digit(u),
        u != '.',
        u != 'T',
        spec_iso_unit(seq![u], false) is None,
        digits_value(ds) <= i64::MAX,
    ensures
        spec_parse_duration(seq!['P'] + ds + seq![u]) is Err,
{
    let n = digits_value(ds);
    crate::text::lemma_digits_value_nonneg(ds);
    let text = seq!['P'] + ds + seq![u];
    let rest = ds + seq![u];
    assert(text.skip(1) =~= rest);
    assert forall|i: int| 0 <= i < rest.len() implies rest[i] != 'T' by {
        if i < ds.len() {
            assert(rest[i] == ds[i]);
            assert(is_digit(ds[i]));
        }
    }
    lemma_no_index(rest, 'T');
    lemma_digit_run_stops(ds, seq![u]);
    assert(rest.take(ds.len() as int) =~= ds);
    assert(rest.skip(ds.len() as int) =~= seq![u]);
    assert(spec_split_decimal(rest) == Ok::<(int, Seq<char>, int), TemporalErrorView>((n, Seq::<char>::empty(), ds.len() as int)));
    assert(spec_iso_part(rest, false, 0) is Err);
}

/// An ISO duration of one time component whose unit is not a time unit is
/// refused.
proof fn lemma_iso_time_part_refused(ds: Seq<char>, u: char)
    requires
        ds.len() > 0,
        all_digits(ds),
        !is_digit(u),
        u != '.',
        spec_iso_unit(seq![u], true) is None,
        digits_value(ds) <= i64::MAX,
    ensures
        spec_parse_duration(seq!['P', 'T'] + ds + seq![u]) is Err,
{
    let n = digits_value(ds);
    crate::text::lemma_digits_value_nonneg(ds);
    let text = seq!['P', 'T'] + ds + seq![u];
    let body = text.skip(1);
    assert(body =~= seq!['T'] + (ds + seq![u]));
    assert(first_index(body, 'T') == Some(0int));
    let rest = ds + seq![u];
    assert(body.take(0) =~= Seq::<char>::empty());
    assert(body.skip(1) =~= rest);
    lemma_digit_run_stops(ds, seq![u]);
    assert(rest.take(ds.len() as int) =~= ds);
    assert(rest.skip(ds.len() as int) =~= seq![u]);
    assert(spec_split_decimal(rest) == Ok::<(int, Seq<char>, int), TemporalErrorView>((n, Seq::<char>::empty(), ds.len() as int)));
    assert(spec_iso_part(rest, true, 0) is Err);
    assert(spec_iso_part(Seq::<char>::empty(), false, 0) == Ok::<int, TemporalErrorView>(0));
}

/// The ISO alias keeps its parts apart: before the `T` only weeks and days
/// are read, so `P<n>M` (a calendar month) and `P<n>H` are refused; after it
/// only hours, minutes and seconds, so `PT<n>D` and `PT<n>W` are refused.
pub proof fn lemma_iso_parts_keep_their_units(ds: Seq<char>)
    requires
        ds.len() > 0,
        all_digits(ds),
        digits_value(ds) <= i64::MAX,
    ensures
        spec_parse_duration(seq!['P'] + ds + seq!['M']) is Err,
        spec_parse_duration(seq!['P'] + ds + seq!['H']) is Err,
        spec_parse_duration(seq!['P', 'T'] + ds + seq!['D']) is Err,
        spec_parse_duration(seq!['P', 'T'] + ds + seq!['W']) is Err,
{
    lemma_iso_date_part_refused(ds, 'M');
    lemma_iso_date_part_refused(ds, 'H');
    lemma_iso_time_part_refused(ds, 'D');
    lemma_iso_time_part_refused(ds, 'W');
}

/// The ISO alias's date units are the week and the day: for a run of digits
/// with value `n`, `P<n>W` is `n` weeks (604 800 000 000 us) and `P<n>D` is
/// `n` days (86 400 000 000 us), the latter the same duration as the friendly
/// `<n>d`, wherever they fit in an `i64`.
pub proof fn lemma_iso_date_units(ds: Seq<char>)
    requires
        ds.len() > 0,
        all_digits(ds),
    ensures
        digits_value(ds) * 604_800_000_000 <= i64::MAX ==> spec_parse_duration(seq!['P'] + ds + seq!['W'])
            == Ok::<int, TemporalErrorView>(digits_value(ds) * 604_800_000_000),
        digits_value(ds) * 86_400_000_000 <= i64::MAX ==> spec_parse_duration(seq!['P'] + ds + seq!['D'])
            == Ok::<int, TemporalErrorView>(digits_value(ds) * 86_400_000_000) && spec_parse_duration(ds + seq!['d'])
            == Ok::<int, TemporalErrorView>(digits_value(ds) * 86_400_000_000),
{
    crate::text::lemma_digits_value_nonneg(ds);
    let n = digits_value(ds);
    assert(n * 604_800_000_000 >= 0 && n * 86_400_000_000 >= 0) by (nonlinear_arith)
        requires
            n >= 0,
    ;
    if n * 604_800_000_000 <= i64::MAX {
        lemma_iso_single_date_part(ds, 'W');
    }
    if n * 86_400_000_000 <= i64::MAX {
        lemma_iso_single_date_part(ds, 'D');
        lemma_friendly_single(ds, seq!['d']);
    }
}

/// A friendly duration of one component, `<digits><unit>`, is its value
/// times the unit's length.
proof fn lemma_friendly_single(ds: Seq<char>, u: Seq<char>)
    requires
        ds.len() > 0,
        all_digits(ds),
        u.len() > 0,
        !is_digit(u[0]),
        spec_friendly_unit(u) matches Some((l, c, rank)) && l == u.len() && 0 <= digits_value(ds) * c <= i64::MAX
            && c >= 1,
    ensures
        spec_friendly_unit(u) matches Some((_, c, _)) && spec_parse_duration(ds + u) == Ok::<
            int,
            TemporalErrorView,
        >(digits_value(ds) * c),
{
    let (l, c, rank) = spec_friendly_unit(u)->0;
    let n = digits_value(ds);
    crate::text::lemma_digits_value_nonneg(ds);
    assert(n <= n * c) by (nonlinear_arith)
        requires
            n >= 0,
            c >= 1,
    ;
    let text = ds + u;
    assert(text[0] == ds[0]);
    lemma_digit_run_stops(ds, u);
    assert(text.take(ds.len() as int) =~= ds);
    assert(text.skip(ds.len() as int) =~= u);
    assert(text.skip(ds.len() as int + l) =~= Seq::<char>::empty());
    assert(spec_friendly(Seq::<char>::empty(), rank as int, n * c) == Ok::<int, TemporalErrorView>(n * c));
    assert(spec_friendly(text, -1, 0) == Ok::<int, TemporalErrorView>(n * c));
}

/// The ISO alias's time units are the hour, the minute and the second: for a
/// run of digits with value `n`, `PT<n>H` is `n` hours (3 600 000 000 us),
/// `PT<n>M` is `n` minutes (60 000 000 us) and `PT<n>S` is `n` seconds
/// (1 000 000 us), the same durations as the friendly `<n>h`, `<n>m` and
/// `<n>s`, wherever they fit in an `i64`.
pub proof fn lemma_iso_time_units(ds: Seq<char>)
    requires
        ds.len() > 0,
        all_digits(ds),
    ensures
        digits_value(ds) * 3_600_000_000 <= i64::MAX ==> spec_parse_duration(seq!['P', 'T'] + ds + seq!['H'])
            == Ok::<int, TemporalErrorView>(digits_value(ds) * 3_600_000_000) && spec_parse_duration(ds + seq!['h'])
            == Ok::<int, TemporalErrorView>(digits_value(ds) * 3_600_000_000),
        digits_value(ds) * 60_000_000 <= i64::MAX ==> spec_parse_duration(seq!['P', 'T'] + ds + seq!['M'])
            == Ok::<int, TemporalErrorView>(digits_value(ds) * 60_000_000) && spec_parse_duration(ds + seq!['m'])
            == Ok::<int, TemporalErrorView>(digits_value(ds) * 60_000_000),
        digits_value(ds) * 1_000_000 <= i64::MAX ==> spec_parse_duration(seq!['P', 'T'] + ds + seq!['S'])
            == Ok::<int, TemporalErrorView>(digits_value(ds) * 1_000_000) && spec_parse_duration(ds + seq!['s'])
            == Ok::<int, TemporalErrorView>(digits_value(ds) * 1_000_000),
{
    crate::text::lemma_digits_value_nonneg(ds);
    let n = digits_value(ds);
    assert(n * 3_600_000_000 >= 0 && n * 60_000_000 >= 0 && n * 1_000_000 >= 0) by (nonlinear_arith)
        requires
            n >= 0,
    ;
    if n * 3_600_000_000 <= i64::MAX {
        lemma_iso_single_time_part(ds, 'H');
        lemma_friendly_single(ds, seq!['h']);
    }
    if n * 60_000_000 <= i64::MAX {
        lemma_iso_single_time_part(ds, 'M');
        lemma_friendly_single(ds, seq!['m']);
    }
    if n * 1_000_000 <= i64::MAX {
        lemma_iso_single_time_part(ds, 'S');
        lemma_friendly_single(ds, seq!['s']);
    }
}

fn friendly_unit_at(v: &[char], p: usize, hi: usize) -> (r: Option<(usize, i64, i64)>)
    requires
        p <= hi <= v.len(),
    ensures
        match spec_friendly_unit(v@.subrange(p as int, hi as int)) {
            None => r is None,
            Some((l, us, rank)) => r == Some((l as usize, us as i64, rank as i64)),
        },
{
    let n = hi - p;
    if n >= 2 && v[p] == 'm' && v[p + 1] == 's' {
        Some((2, US_PER_MS, 4))
    } else if n >= 2 && v[p] == 'u' && v[p + 1] == 's' {
        Some((2, 1, 5))
    } else if n >= 1 && v[p] == 'd' {
        Some((1, US_PER_DAY, 0))
    } else if n >= 1 && v[p] == 'h' {
        Some((1, US_PER_HOUR, 1))
    } else if n >= 1 && v[p] == 'm' {
        Some((1, US_PER_MIN, 2))
    } else if n >= 1 && v[p] == 's' {
        Some((1, US_PER_S, 3))
    } else {
        None
    }
}

/// The unit-ish text at `v[p..hi]`, for the error message.
fn unit_text_at(v: &[char], p: usize, hi: usize) -> (r: String)
    requires
        p <= hi <= v.len(),
    ensures
        r@ == unit_text(v@.subrange(p as int, hi as int)),
{
    let ghost rest = v@.subrange(p as int, hi as int);
    let mut i = p;
    while i < hi && char_is_alpha(v[i])
        invariant
            p <= i <= hi <= v.len(),
            forall|j: int| p <= j < i ==> is_alpha(#[trigger] v@[j]),
        decreases hi - i,
    {
        i += 1;
    }
    proof {
        assert forall|j: int| 0 <= j < i - p implies is_alpha(#[trigger] rest[j]) by {
            assert(rest[j] == v@[p + j]);
        }
        if i < hi {
            assert(rest[i - p] == v@[i as int]);
        }
        crate::text::lemma_alpha_run(rest, i - p);
        assert(rest.take(i - p) =~= v@.subrange(p as int, i as int));
    }
    sub_string(v, p, i)
}

fn digit_run_in(v: &[char], p: usize, hi: usize) -> (r: usize)
    requires
        p <= hi <= v.len(),
    ensures
        r as int == digit_run(v@.subrange(p as int, hi as int)),
        p + r <= hi,
{
    let ghost rest = v@.subrange(p as int, hi as int);
    let mut i = p;
    while i < hi && char_is_digit(v[i])
        invariant
            p <= i <= hi <= v.len(),
            forall|j: int| p <= j < i ==> is_digit(#[trigger] v@[j]),
        decreases hi - i,
    {
        i += 1;
    }
    proof {
        assert forall|j: int| 0 <= j < i - p implies is_digit(#[trigger] rest[j]) by {
            assert(rest[j] == v@[p + j]);
        }
        if i < hi {
            assert(rest[i - p] == v@[i as int]);
        }
        crate::text::lemma_digit_run(rest, i - p);
    }
    i - p
}

/// The friendly form over `v[lo..hi]`.
fn parse_friendly_duration(v: &[char], lo: usize, hi: usize) -> (r: Result<i64, TemporalError>)
    requires
        lo <= hi <= v.len(),
    ensures
        view_i64(r) == spec_parse_friendly(v@.subrange(lo as int, hi as int)),
        r matches Ok(m) ==> m >= 0,
{
    if lo == hi {
        return Err(TemporalError::Shape);
    }
    let ghost whole = v@.subrange(lo as int, hi as int);
    let mut total: i64 = 0;
    let mut last_rank: i64 = -1;
    let mut p = lo;
    while p < hi
        invariant
            lo <= p <= hi <= v.len(),
            whole == v@.subrange(lo as int, hi as int),
            whole.len() > 0,
            total >= 0,
            -1 <= last_rank <= 5,
            spec_parse_friendly(whole) == spec_friendly(
                v@.subrange(p as int, hi as int),
                last_rank as int,
                total as int,
            ),
        decreases hi - p,
    {
        let ghost rest = v@.subrange(p as int, hi as int);
        let n = digit_run_in(v, p, hi);
        if n == 0 {
            return Err(TemporalError::Shape);
        }
        assert(rest.take(n as int) =~= v@.subrange(p as int, p + n));
        let value = match parse_digits(v, p, p + n) {
            Ok(value) => value,
            Err(e) => return Err(e),
        };
        proof {
            lemma_digits_ok_nonneg(rest.take(n as int));
        }
        let q = p + n;
        assert(rest.skip(n as int) =~= v@.subrange(q as int, hi as int));
        let (ulen, unit_us, rank) = match friendly_unit_at(v, q, hi) {
            Some(u) => u,
            None => return Err(TemporalError::Unit(unit_text_at(v, q, hi))),
        };
        if rank <= last_rank {
            return Err(TemporalError::Order);
        }
        let scaled = match value.checked_mul(unit_us) {
            Some(scaled) => scaled,
            None => {
                proof {
                    assert(value * unit_us >= 0) by (nonlinear_arith)
                        requires value >= 0, unit_us >= 1;
                }
                return Err(TemporalError::Range);
            },
        };
        assert(scaled >= 0) by (nonlinear_arith)
            requires scaled == value * unit_us, value >= 0, unit_us >= 1;
        total = match total.checked_add(scaled) {
            Some(t) => t,
            None => return Err(TemporalError::Range),
        };
        last_rank = rank;
        p = q + ulen;
        assert(rest.skip((n + ulen) as int) =~= v@.subrange(p as int, hi as int));
    }
    Ok(total)
}

/// `digits[.digits]` at `v[p..hi]`: the whole part, the fraction's bounds and
/// the tail's start.
fn split_decimal(v: &[char], p: usize, hi: usize) -> (r: Result<(i64, usize, usize), TemporalError>)
    requires
        p <= hi <= v.len(),
    ensures
        match r {
            Ok((whole, frac_lo, frac_hi)) => {
                &&& p + 1 <= frac_hi <= hi
                &&& frac_lo <= frac_hi
                &&& spec_split_decimal(v@.subrange(p as int, hi as int)) == Ok::<
                    (int, Seq<char>, int),
                    TemporalErrorView,
                >((whole as int, v@.subrange(frac_lo as int, frac_hi as int), frac_hi - p))
            },
            Err(e) => spec_split_decimal(v@.subrange(p as int, hi as int)) == Err::<
                (int, Seq<char>, int),
                TemporalErrorView,
            >(e@),
        },
        r matches Ok((whole, _, _)) ==> whole >= 0,
{
    let ghost text = v@.subrange(p as int, hi as int);
    let whole_len = digit_run_in(v, p, hi);
    if whole_len == 0 {
        return Err(TemporalError::Shape);
    }
    assert(text.take(whole_len as int) =~= v@.subrange(p as int, p + whole_len));
    let whole = match parse_digits(v, p, p + whole_len) {
        Ok(w) => w,
        Err(e) => return Err(e),
    };
    proof {
        lemma_digits_ok_nonneg(text.take(whole_len as int));
    }
    let q = p + whole_len;
    let ghost rest = text.skip(whole_len as int);
    assert(rest =~= v@.subrange(q as int, hi as int));
    if q < hi && v[q] == '.' {
        let frac_len = digit_run_in(v, q + 1, hi);
        assert(rest.skip(1) =~= v@.subrange(q + 1, hi as int));
        if frac_len == 0 {
            return Err(TemporalError::Shape);
        }
        assert(rest.skip(1).take(frac_len as int) =~= v@.subrange(q + 1, q + 1 + frac_len));
        Ok((whole, q + 1, q + 1 + frac_len))
    } else {
        assert(v@.subrange(q as int, q as int) =~= Seq::<char>::empty());
        Ok((whole, q, q))
    }
}

/// The microseconds of the fractional component `v[lo..hi]` of a unit.
fn fractional_micros(v: &[char], lo: usize, hi: usize, unit_us: i64) -> (r: Result<i64, TemporalError>)
    requires
        lo <= hi <= v.len(),
        unit_us >= 1,
    ensures
        view_i64(r) == spec_fractional_micros(v@.subrange(lo as int, hi as int), unit_us as int),
        r matches Ok(m) ==> m >= 0,
{
    let ghost fraction = v@.subrange(lo as int, hi as int);
    if lo == hi {
        return Ok(0);
    }
    let digits = match parse_digits(v, lo, hi) {
        Ok(d) => d,
        Err(e) => return Err(e),
    };
    proof {
        lemma_digits_ok_nonneg(fraction);
    }
    if hi - lo > 18 {
        return Err(TemporalError::Range);
    }
    let scale = pow10_exec((hi - lo) as u32);
    proof {
        crate::text::lemma_pow10_pos((hi - lo) as nat);
    }
    let scaled = match digits.checked_mul(unit_us) {
        Some(s) => s,
        None => {
            proof {
                assert(digits * unit_us >= 0) by (nonlinear_arith)
                    requires digits >= 0, unit_us >= 1;
            }
            return Err(TemporalError::Range);
        },
    };
    assert(scaled >= 0) by (nonlinear_arith)
        requires scaled == digits * unit_us, digits >= 0, unit_us >= 1;
    if scaled % scale != 0 {
        return Err(TemporalError::Component { field: "fractional component", value: sub_string(v, lo, hi) });
    }
    Ok(scaled / scale)
}

fn iso_unit_at(v: &[char], p: usize, hi: usize, time: bool) -> (r: Option<i64>)
    requires
        p <= hi <= v.len(),
    ensures
        match spec_iso_unit(v@.subrange(p as int, hi as int), time) {
            None => r is None,
            Some(us) => r == Some(us as i64),
        },
{
    if p >= hi {
        None
    } else if !time {
        if v[p] == 'W' {
            Some(7 * US_PER_DAY)
        } else if v[p] == 'D' {
            Some(US_PER_DAY)
        } else {
            None
        }
    } else {
        if v[p] == 'H' {
            Some(US_PER_HOUR)
        } else if v[p] == 'M' {
            Some(US_PER_MIN)
        } else if v[p] == 'S' {
            Some(US_PER_S)
        } else {
            None
        }
    }
}

/// One part of an ISO duration, `v[lo..hi]`, onto `total`.
fn iso_part(v: &[char], lo: usize, hi: usize, time: bool, total: i64) -> (r: Result<i64, TemporalError>)
    requires
        lo <= hi <= v.len(),
        total >= 0,
    ensures
        view_i64(r) == spec_iso_part(v@.subrange(lo as int, hi as int), time, total as int),
        r matches Ok(m) ==> m >= 0,
{
    let ghost total0 = total;
    let mut acc = total;
    let mut p = lo;
    while p < hi
        invariant
            lo <= p <= hi <= v.len(),
            acc >= 0,
            total0 == total,
            spec_iso_part(v@.subrange(lo as int, hi as int), time, total0 as int) == spec_iso_part(
                v@.subrange(p as int, hi as int),
                time,
                acc as int,
            ),
        decreases hi - p,
    {
        let ghost rest = v@.subrange(p as int, hi as int);
        let (whole, frac_lo, frac_hi) = match split_decimal(v, p, hi) {
            Ok(parts) => parts,
            Err(e) => {
                assert(rest.len() > 0);
                assert(spec_iso_part(rest, time, acc as int) == Err::<int, TemporalErrorView>(e@));
                return Err(e);
            },
        };
        assert(rest.skip(frac_hi - p) =~= v@.subrange(frac_hi as int, hi as int));
        let unit_us = match iso_unit_at(v, frac_hi, hi, time) {
            Some(us) => us,
            None => return Err(TemporalError::Unit(unit_text_at(v, frac_hi, hi))),
        };
        let scaled = match whole.checked_mul(unit_us) {
            Some(s) => s,
            None => {
                proof {
                    assert(whole * unit_us >= 0) by (nonlinear_arith)
                        requires whole >= 0, unit_us >= 1;
                }
                return Err(TemporalError::Range);
            },
        };
        assert(scaled >= 0) by (nonlinear_arith)
            requires scaled == whole * unit_us, whole >= 0, unit_us >= 1;
        let frac_us = match fractional_micros(v, frac_lo, frac_hi, unit_us) {
            Ok(f) => f,
            Err(e) => return Err(e),
        };
        let component = match scaled.checked_add(frac_us) {
            Some(c) => c,
            None => return Err(TemporalError::Range),
        };
        acc = match acc.checked_add(component) {
            Some(t) => t,
            None => return Err(TemporalError::Range),
        };
        if frac_hi + 1 > hi {
            proof {
                assert(false);
            }
            return Err(TemporalError::Shape);
        }
        let ghost old_p = p;
        p = frac_hi + 1;
        assert(rest.skip(frac_hi + 1 - old_p) =~= v@.subrange(p as int, hi as int));
    }
    Ok(acc)
}


/// The ISO alias over `v[lo..hi]`, `v[lo] == 'P'`.
fn parse_iso_duration(v: &[char], lo: usize, hi: usize) -> (r: Result<i64, TemporalError>)
    requires
        lo < hi <= v.len(),
    ensures
        view_i64(r) == spec_parse_iso(v@.subrange(lo as int, hi as int)),
        r matches Ok(m) ==> m >= 0,
{
    let ghost text = v@.subrange(lo as int, hi as int);
    let ghost body = text.skip(1);
    assert(body =~= v@.subrange(lo + 1, hi as int));
    let (date_hi, time_lo) = match find_char_in(v, lo + 1, hi, 'T') {
        Some(t) => (t, t + 1),
        None => (hi, hi),
    };
    proof {
        match first_index(body, 'T') {
            Some(i) => {
                assert(body.take(i) =~= v@.subrange(lo + 1, date_hi as int));
                assert(body.skip(i + 1) =~= v@.subrange(time_lo as int, hi as int));
            },
            None => {
                assert(v@.subrange(time_lo as int, hi as int) =~= Seq::<char>::empty());
            },
        }
    }
    if date_hi == lo + 1 && time_lo == hi {
        return Err(TemporalError::Shape);
    }
    let total = match iso_part(v, lo + 1, date_hi, false, 0) {
        Ok(t) => t,
        Err(e) => return Err(e),
    };
    iso_part(v, time_lo, hi, true, total)
}

/// Reads a duration, in the friendly form (`1d12h`, `90m`, `500ms`, `0s`) or
/// the ISO-8601 alias (`P1D`, `PT36H`), optionally negated.
pub fn parse_duration(text: &str) -> (r: Result<Duration, TemporalError>)
    ensures
        view_result(r) == spec_parse_duration(text@),
{
    let v = crate::text::chars_of(text);
    assert(v@.subrange(0, v@.len() as int) =~= v@);
    parse_duration_chars(&v, 0, v.len())
}

fn parse_duration_chars(v: &[char], lo: usize, hi: usize) -> (r: Result<Duration, TemporalError>)
    requires
        lo <= hi <= v.len(),
    ensures
        view_result(r) == spec_parse_duration(v@.subrange(lo as int, hi as int)),
{
    let ghost text = v@.subrange(lo as int, hi as int);
    let negative = lo < hi && v[lo] == '-';
    let start = if negative {
        lo + 1
    } else {
        lo
    };
    let ghost body = if negative {
        text.skip(1)
    } else {
        text
    };
    assert(body =~= v@.subrange(start as int, hi as int));
    let magnitude = if start < hi && v[start] == 'P' {
        parse_iso_duration(v, start, hi)
    } else {
        parse_friendly_duration(v, start, hi)
    };
    match magnitude {
        Ok(m) => Ok(Duration(
            if negative {
                -m
            } else {
                m
            },
        )),
        Err(e) => Err(e),
    }
}

/// Does this text take the duration shape? A leading `P`/`-P` (the ISO
/// alias), or digits followed by a letter rather than a `-`.
pub open spec fn spec_looks_like_duration(t: Seq<char>) -> bool {
    let body = if t.len() > 0 && t[0] == '-' {
        t.skip(1)
    } else {
        t
    };
    if body.len() > 0 && body[0] == 'P' {
        true
    } else {
        let n = digit_run(body);
        n > 0 && n < body.len() && is_alpha(body[n as int])
    }
}

fn looks_like_duration(v: &[char]) -> (r: bool)
    ensures
        r == spec_looks_like_duration(v@),
{
    let start: usize = if v.len() > 0 && v[0] == '-' {
        1
    } else {
        0
    };
    let ghost body = if v@.len() > 0 && v@[0] == '-' {
        v@.skip(1)
    } else {
        v@
    };
    assert(body =~= v@.subrange(start as int, v@.len() as int));
    if start < v.len() && v[start] == 'P' {
        return true;
    }
    let n = digit_run_in(v, start, v.len());
    proof {
        if start + n < v.len() {
            assert(body[n as int] == v@[start + n]);
        }
    }
    n > 0 && start + n < v.len() && char_is_alpha(v[start + n])
}

/// Which temporal type a piece of text spells.
#[derive(Debug, Clone, Copy, PartialEq, Eq)]
pub enum Temporal {
    Date(Date),
    Timestamp(Timestamp),
    Duration(Duration),
}

/// The mathematical content of a [`Temporal`]: which type, and its count.
pub enum TemporalView {
    Date(int),
    Timestamp(int),
    Duration(int),
}

impl View for Temporal {
    type V = TemporalView;

    open spec fn view(&self) -> TemporalView {
        match self {
            Temporal::Date(d) => TemporalView::Date(d@),
            Temporal::Timestamp(t) => TemporalView::Timestamp(t@),
            Temporal::Duration(d) => TemporalView::Duration(d@),
        }
    }
}

/// Reads any temporal form from unsigilled text: a duration by its shape, a
/// timestamp when a `T` is present, a date otherwise.
pub open spec fn spec_parse_temporal(t: Seq<char>) -> Result<TemporalView, TemporalErrorView> {
    if spec_looks_like_duration(t) {
        match spec_parse_duration(t) {
            Ok(d) => Ok(TemporalView::Duration(d)),
            Err(e) => Err(e),
        }
    } else if first_index(t, 'T') is Some {
        match spec_parse_timestamp(t) {
            Ok(m) => Ok(TemporalView::Timestamp(m)),
            Err(e) => Err(e),
        }
    } else {
        match spec_parse_date(t) {
            Ok(d) => Ok(TemporalView::Date(d)),
            Err(e) => Err(e),
        }
    }
}

/// Reads any temporal form from unsigilled text.
pub fn parse_temporal(text: &str) -> (r: Result<Temporal, TemporalError>)
    ensures
        match r {
            Ok(t) => spec_parse_temporal(text@) == Ok::<TemporalView, TemporalErrorView>(t@),
            Err(e) => spec_parse_temporal(text@) == Err::<TemporalView, TemporalErrorView>(e@),
        },
{
    let v = crate::text::chars_of(text);
    assert(v@.subrange(0, v@.len() as int) =~= v@);
    if looks_like_duration(&v) {
        return match parse_duration_chars(&v, 0, v.len()) {
            Ok(d) => Ok(Temporal::Duration(d)),
            Err(e) => Err(e),
        };
    }
    if find_char(&v, 'T').is_some() {
        return match parse_timestamp_chars(&v, 0, v.len()) {
            Ok(t) => Ok(Temporal::Timestamp(t)),
            Err(e) => Err(e),
        };
    }
    match parse_date_chars(&v, 0, v.len()) {
        Ok(d) => Ok(Temporal::Date(d)),
        Err(e) => Err(e),
    }
}


// --- Rendering: the unsigilled canonical text ---

/// `{n:0width$}` for a signed `n`: the sign counts toward the width.
pub open spec fn signed_zero_padded(n: int, width: nat) -> Seq<char> {
    if n < 0 {
        seq!['-'] + zero_padded((-n) as nat, if width >= 1 { (width - 1) as nat } else { 0 })
    } else {
        zero_padded(n as nat, width)
    }
}

/// The text of a day count: `YYYY-MM-DD`.
pub open spec fn spec_render_date(days: int) -> Seq<char> {
    let (y, m, d) = spec_civil_from_days(days);
    signed_zero_padded(y, 4) + seq!['-'] + signed_zero_padded(m, 2) + seq!['-'] + signed_zero_padded(d, 2)
}

/// `s` without its trailing zeros.
pub open spec fn trim_trailing_zeros(s: Seq<char>) -> Seq<char>
    decreases s.len(),
{
    if s.len() > 0 && s.last() == '0' {
        trim_trailing_zeros(s.drop_last())
    } else {
        s
    }
}

/// The text of a microsecond count: `YYYY-MM-DDTHH:MM:SS`, then `.` and the
/// fractional second with trailing zeros trimmed, only when it is nonzero.
pub open spec fn spec_render_timestamp(micros: int) -> Seq<char> {
    let (y, mo, d, h, mi, s, us) = spec_parts(micros);
    let clock = signed_zero_padded(y, 4) + seq!['-'] + signed_zero_padded(mo, 2) + seq!['-']
        + signed_zero_padded(d, 2) + seq!['T'] + signed_zero_padded(h, 2) + seq![':']
        + signed_zero_padded(mi, 2) + seq![':'] + signed_zero_padded(s, 2);
    if us != 0 {
        clock + seq!['.'] + trim_trailing_zeros(zero_padded(us as nat, 6))
    } else {
        clock
    }
}

/// The microseconds of the `i`th unit of the duration decomposition.
pub open spec fn duration_unit_us(i: nat) -> nat {
    if i == 0 {
        86_400_000_000
    } else if i == 1 {
        3_600_000_000
    } else if i == 2 {
        60_000_000
    } else if i == 3 {
        1_000_000
    } else if i == 4 {
        1_000
    } else {
        1
    }
}

/// The suffix of the `i`th unit of the duration decomposition.
pub open spec fn duration_unit_suffix(i: nat) -> Seq<char> {
    if i == 0 {
        seq!['d']
    } else if i == 1 {
        seq!['h']
    } else if i == 2 {
        seq!['m']
    } else if i == 3 {
        seq!['s']
    } else if i == 4 {
        seq!['m', 's']
    } else {
        seq!['u', 's']
    }
}

/// The largest-unit decomposition of `rest` from unit `i` on, zero
/// components omitted.
pub open spec fn spec_render_units(rest: nat, i: nat) -> Seq<char>
    decreases 6 - i,
{
    if i >= 6 {
        Seq::empty()
    } else {
        let u = duration_unit_us(i);
        let n = rest / u;
        let head = if n != 0 {
            decimal(n) + duration_unit_suffix(i)
        } else {
            Seq::empty()
        };
        head + spec_render_units(rest % u, i + 1)
    }
}

/// The text of a duration: `0s` for zero, otherwise a `-` when negative and
/// the largest-unit decomposition of the magnitude.
pub open spec fn spec_render_duration(micros: int) -> Seq<char> {
    if micros == 0 {
        seq!['0', 's']
    } else if micros < 0 {
        seq!['-'] + spec_render_units((-micros) as nat, 0)
    } else {
        spec_render_units(micros as nat, 0)
    }
}

/// Appends `{n:0width$}` for a signed `n`.
fn push_signed_padded(out: &mut Vec<char>, n: i64, width: usize)
    requires
        1 <= width <= 8,
    ensures
        final(out)@ == old(out)@ + signed_zero_padded(n as int, width as nat),
{
    let digits = if n < 0 {
        let magnitude: u64 = if n == i64::MIN {
            9223372036854775808u64
        } else {
            (-n) as u64
        };
        out.push('-');
        crate::text::zero_padded_chars(magnitude, width - 1)
    } else {
        crate::text::zero_padded_chars(n as u64, width)
    };
    let ghost before = out@;
    let mut i: usize = 0;
    while i < digits.len()
        invariant
            i <= digits.len(),
            out@ == before + digits@.take(i as int),
        decreases digits.len() - i,
    {
        out.push(digits[i]);
        i += 1;
        assert(digits@.take(i as int) =~= digits@.take((i - 1) as int).push(digits@[i - 1]));
    }
    assert(digits@.take(digits.len() as int) =~= digits@);
    proof {
        if n < 0 {
            assert(old(out)@.push('-') =~= old(out)@ + seq!['-']);
        }
    }
}

impl Date {
    /// The canonical text, `YYYY-MM-DD` (no `@` sigil; the printer adds it).
    pub fn render(self) -> (r: String)
        ensures
            r@ == spec_render_date(self@),
    {
        let (y, m, d) = self.ymd();
        let mut out: Vec<char> = Vec::new();
        push_signed_padded(&mut out, y, 4);
        out.push('-');
        push_signed_padded(&mut out, m, 2);
        out.push('-');
        push_signed_padded(&mut out, d, 2);
        proof {
            assert(out@ =~= spec_render_date(self@));
        }
        crate::text::string_of(&out)
    }
}

fn trimmed_fraction(us: i64) -> (r: Vec<char>)
    requires
        0 <= us < 1000000,
    ensures
        r@ == trim_trailing_zeros(zero_padded(us as nat, 6)),
{
    let mut digits = crate::text::zero_padded_chars(us as u64, 6);
    while digits.len() > 0 && digits[digits.len() - 1] == '0'
        invariant
            trim_trailing_zeros(digits@) == trim_trailing_zeros(zero_padded(us as nat, 6)),
        decreases digits.len(),
    {
        digits.pop();
    }
    digits
}

impl Timestamp {
    /// The canonical text, `YYYY-MM-DDTHH:MM:SS[.ffffff]`, the fractional part
    /// only when nonzero and with trailing zeros trimmed.
    pub fn render(self) -> (r: String)
        ensures
            r@ == spec_render_timestamp(self@),
    {
        let (y, mo, d, h, mi, s, us) = self.parts();
        proof {
            let rem = self@ % US_PER_DAY as int;
            assert(0 <= rem < US_PER_DAY);
            assert(0 <= us < 1000000);
        }
        let mut out: Vec<char> = Vec::new();
        push_signed_padded(&mut out, y, 4);
        out.push('-');
        push_signed_padded(&mut out, mo, 2);
        out.push('-');
        push_signed_padded(&mut out, d, 2);
        out.push('T');
        push_signed_padded(&mut out, h, 2);
        out.push(':');
        push_signed_padded(&mut out, mi, 2);
        out.push(':');
        push_signed_padded(&mut out, s, 2);
        let ghost clock = out@;
        if us != 0 {
            out.push('.');
            let frac = trimmed_fraction(us);
            let mut i: usize = 0;
            while i < frac.len()
                invariant
                    i <= frac.len(),
                    out@ == clock + seq!['.'] + frac@.take(i as int),
                decreases frac.len() - i,
            {
                out.push(frac[i]);
                i += 1;
                assert(frac@.take(i as int) =~= frac@.take((i - 1) as int).push(frac@[i - 1]));
            }
            assert(frac@.take(frac.len() as int) =~= frac@);
        }
        proof {
            assert(out@ =~= spec_render_timestamp(self@));
        }
        crate::text::string_of(&out)
    }
}

impl Duration {
    /// The canonical text: largest-unit decomposition, zero components
    /// omitted, `0s` for zero — a function of the value, not of its spelling.
    pub fn render(self) -> (r: String)
        ensures
            r@ == spec_render_duration(self@),
    {
        let mut out: Vec<char> = Vec::new();
        if self.0 == 0 {
            out.push('0');
            out.push('s');
            proof {
                assert(out@ =~= spec_render_duration(self@));
            }
            return crate::text::string_of(&out);
        }
        if self.0 < 0 {
            out.push('-');
        }
        let mut rest: u64 = if self.0 == i64::MIN {
            9223372036854775808u64
        } else if self.0 < 0 {
            (-self.0) as u64
        } else {
            self.0 as u64
        };
        let ghost prefix = out@;
        let ghost magnitude = rest as nat;
        let mut i: usize = 0;
        while i < 6
            invariant
                i <= 6,
                prefix + spec_render_units(magnitude, 0) == out@ + spec_render_units(rest as nat, i as nat),
            decreases 6 - i,
        {
            let unit: u64 = if i == 0 {
                86_400_000_000
            } else if i == 1 {
                3_600_000_000
            } else if i == 2 {
                60_000_000
            } else if i == 3 {
                1_000_000
            } else if i == 4 {
                1_000
            } else {
                1
            };
            let n = rest / unit;
            let ghost before = out@;
            if n != 0 {
                let digits = crate::text::decimal_chars(n);
                let mut k: usize = 0;
                while k < digits.len()
                    invariant
                        k <= digits.len(),
                        out@ == before + digits@.take(k as int),
                    decreases digits.len() - k,
                {
                    out.push(digits[k]);
                    k += 1;
                    assert(digits@.take(k as int) =~= digits@.take((k - 1) as int).push(digits@[k - 1]));
                }
                assert(digits@.take(digits.len() as int) =~= digits@);
                if i == 0 {
                    out.push('d');
                } else if i == 1 {
                    out.push('h');
                } else if i == 2 {
                    out.push('m');
                } else if i == 3 {
                    out.push('s');
                } else if i == 4 {
                    out.push('m');
                    out.push('s');
                } else {
                    out.push('u');
                    out.push('s');
                }
            }
            let ghost old_rest = rest;
            rest = rest % unit;
            proof {
                let head = if n != 0 {
                    decimal(n as nat) + duration_unit_suffix(i as nat)
                } else {
                    Seq::<char>::empty()
                };
                assert(out@ =~= before + head);
                assert(spec_render_units(old_rest as nat, i as nat) == head + spec_render_units(
                    rest as nat,
                    (i + 1) as nat,
                ));
                assert(before + spec_render_units(old_rest as nat, i as nat) =~= out@ + spec_render_units(
                    rest as nat,
                    (i + 1) as nat,
                ));
            }
            i += 1;
        }
        proof {
            assert(spec_render_units(rest as nat, 6) =~= Seq::<char>::empty());
            assert(out@ =~= spec_render_duration(self@));
        }
        crate::text::string_of(&out)
    }
}


// --- Lenient reading, for declared-type coercion of imported columns ---

pub open spec fn is_sign(c: char) -> bool {
    c == '+' || c == '-'
}

/// The last `+`/`-` among the first `k` characters of `s` that sits at byte
/// offset 10 or later (past a date's own hyphens).
pub open spec fn last_sign(s: Seq<char>, k: int) -> Option<int>
    decreases k,
{
    if k <= 0 {
        None
    } else if is_sign(s[k - 1]) && byte_offset(s, k - 1) >= 10 {
        Some(k - 1)
    } else {
        last_sign(s, k - 1)
    }
}

/// `s` with every `:` removed.
pub open spec fn remove_colons(s: Seq<char>) -> Seq<char>
    decreases s.len(),
{
    if s.len() == 0 {
        s
    } else if s.last() == ':' {
        remove_colons(s.drop_last())
    } else {
        remove_colons(s.drop_last()).push(s.last())
    }
}

/// Splits a trailing zone offset (`Z`, `+01:00`, `-0500`) off a timestamp,
/// returning the body and the offset's microseconds.
pub open spec fn spec_split_offset(t: Seq<char>) -> Result<(Seq<char>, int), TemporalErrorView> {
    if t.len() > 0 && (t.last() == 'Z' || t.last() == 'z') {
        Ok((t.drop_last(), 0))
    } else {
        match last_sign(t, t.len() as int) {
            None => Ok((t, 0)),
            Some(p) => {
                let offset = t.skip(p);
                let digits = remove_colons(offset.skip(1));
                if digits.len() != 4 || !all_digits(digits) {
                    Err(TemporalErrorView::Component("zone offset"@, offset))
                } else {
                    let hours = digits_value(digits.subrange(0, 2));
                    let minutes = digits_value(digits.subrange(2, 4));
                    if hours > 23 || minutes > 59 {
                        Err(TemporalErrorView::Component("zone offset"@, offset))
                    } else {
                        let magnitude = hours * US_PER_HOUR as int + minutes * US_PER_MIN as int;
                        Ok((t.take(p), if offset[0] == '-' { -magnitude } else { magnitude }))
                    }
                }
            },
        }
    }
}

/// `s` with its first space turned into a `T`.
pub open spec fn replace_first_space(s: Seq<char>) -> Seq<char> {
    match first_index(s, ' ') {
        Some(i) => s.update(i, 'T'),
        None => s,
    }
}

/// The permissive reading of a declared timestamp column: surrounding
/// whitespace is ignored, a space may stand for the `T`, a bare date means
/// midnight, and a trailing zone offset is applied and dropped.
pub open spec fn spec_parse_timestamp_lenient(text: Seq<char>) -> Result<int, TemporalErrorView> {
    match spec_split_offset(trim(text)) {
        Err(e) => Err(e),
        Ok((body, offset)) => {
            let body = replace_first_space(body);
            let base = if first_index(body, 'T') is Some {
                spec_parse_timestamp(body)
            } else {
                match spec_parse_date(body) {
                    Ok(days) => Ok(days * US_PER_DAY as int),
                    Err(e) => Err(e),
                }
            };
            match base {
                Err(e) => Err(e),
                Ok(micros) => {
                    let shifted = micros - offset;
                    if shifted < i64::MIN || shifted > i64::MAX {
                        Err(TemporalErrorView::Range)
                    } else if MIN_YEAR <= year_of_days(shifted / US_PER_DAY as int) <= MAX_YEAR {
                        Ok(shifted)
                    } else {
                        Err(TemporalErrorView::Range)
                    }
                },
            }
        },
    }
}

proof fn lemma_valid_days_bounds(y: int, m: int, d: int)
    requires
        valid_ymd(y, m, d),
    ensures
        MIN_DAYS <= spec_days_from_civil(y, m, d) <= MAX_DAYS + 31,
{
}

/// A number written with `width` zero-padded digits reads back as itself.
proof fn lemma_padded_digits_read_back(n: nat, width: nat)
    requires
        0 < width <= 6,
        n < pow10(width),
    ensures
        zero_padded(n, width).len() == width,
        spec_parse_digits(zero_padded(n, width)) == Ok::<int, TemporalErrorView>(n as int),
{
    crate::text::lemma_zero_padded(n, width);
    reveal_with_fuel(pow10, 7);
    assert(pow10(width) <= 1_000_000);
}

/// A date's canonical text, `YYYY-MM-DD`, reads back as the same date, for
/// every date of the four-digit-year range.
pub proof fn lemma_date_text_round_trips(days: int)
    requires
        MIN_YEAR <= year_of_days(days) <= MAX_YEAR,
    ensures
        spec_parse_date(spec_render_date(days)) == Ok::<int, TemporalErrorView>(days),
        spec_render_date(days).len() == 10,
        spec_split_date(spec_render_date(days)) == Ok::<(int, int, int), TemporalErrorView>(
            spec_civil_from_days(days),
        ),
        forall|j: int|
            0 <= j < 10 ==> is_digit(#[trigger] spec_render_date(days)[j]) || spec_render_date(days)[j]
                == '-',
{
    lemma_civil_round_trip(days);
    let (y, m, d) = spec_civil_from_days(days);
    reveal_with_fuel(pow10, 5);
    lemma_padded_digits_read_back(y as nat, 4);
    lemma_padded_digits_read_back(m as nat, 2);
    lemma_padded_digits_read_back(d as nat, 2);
    let ty = zero_padded(y as nat, 4);
    let tm = zero_padded(m as nat, 2);
    let td = zero_padded(d as nat, 2);
    let t = spec_render_date(days);
    assert(t =~= ty + seq!['-'] + tm + seq!['-'] + td);
    assert(t.subrange(0, 4) =~= ty);
    assert(t.subrange(5, 7) =~= tm);
    assert(t.subrange(8, 10) =~= td);
    assert(spec_split_date(t) == Ok::<(int, int, int), TemporalErrorView>((y, m, d)));
    assert forall|j: int| 0 <= j < 10 implies is_digit(#[trigger] t[j]) || t[j] == '-' by {
        if j < 4 {
            assert(t[j] == ty[j]);
        } else if 4 < j < 7 {
            assert(t[j] == tm[j - 5]);
        } else if 7 < j {
            assert(t[j] == td[j - 8]);
        }
    }
}

/// `s` without its trailing zeros is a prefix of it, and scaling its value
/// by the zeros removed gives back the value of `s`.
proof fn lemma_trim_trailing_zeros(s: Seq<char>)
    requires
        all_digits(s),
    ensures
        trim_trailing_zeros(s).len() <= s.len(),
        trim_trailing_zeros(s) =~= s.take(trim_trailing_zeros(s).len() as int),
        digits_value(s) == digits_value(trim_trailing_zeros(s)) * pow10(
            (s.len() - trim_trailing_zeros(s).len()) as nat,
        ),
    decreases s.len(),
{
    let f = trim_trailing_zeros(s);
    if s.len() > 0 && s.last() == '0' {
        let p = s.drop_last();
        assert(all_digits(p)) by {
            assert forall|i: int| 0 <= i < p.len() implies is_digit(#[trigger] p[i]) by {
                assert(p[i] == s[i]);
            }
        }
        lemma_trim_trailing_zeros(p);
        assert(f == trim_trailing_zeros(p));
        assert(crate::text::digit_value(s.last()) == 0);
        assert(digits_value(s) == 10 * digits_value(p) + crate::text::digit_value(s.last()));
        let k = (p.len() - f.len()) as nat;
        assert((s.len() - f.len()) as nat == k + 1);
        assert(pow10((k + 1) as nat) == 10 * pow10(k));
        let vf = digits_value(f);
        assert(10 * (vf * pow10(k)) == vf * (10 * pow10(k))) by (nonlinear_arith);
        assert(digits_value(p) == vf * pow10(k));
        assert(digits_value(s) == 10 * (vf * pow10(k)));
        assert(digits_value(s) == vf * pow10((k + 1) as nat));
        assert(f =~= s.take(f.len() as int));
    } else {
        assert(f == s);
        assert(s.take(s.len() as int) =~= s);
        assert(pow10(0) == 1);
        assert(digits_value(s) * 1 == digits_value(s));
    }
}

/// The clock fields of a time of day: hour, minute, second and microsecond
/// are in range and add back up to the time of day.
proof fn lemma_clock_fields(rem: int)
    requires
        0 <= rem < US_PER_DAY,
    ensures
        0 <= rem / (US_PER_HOUR as int) <= 23,
        0 <= (rem % (US_PER_HOUR as int)) / (US_PER_MIN as int) <= 59,
        0 <= (rem % (US_PER_MIN as int)) / (US_PER_S as int) <= 59,
        0 <= rem % (US_PER_S as int) < 1_000_000,
        rem == (rem / (US_PER_HOUR as int)) * (US_PER_HOUR as int) + ((rem % (US_PER_HOUR as int))
            / (US_PER_MIN as int)) * (US_PER_MIN as int) + ((rem % (US_PER_MIN as int)) / (US_PER_S as int))
            * (US_PER_S as int) + rem % (US_PER_S as int),
{
    let h = US_PER_HOUR as int;
    let mi = US_PER_MIN as int;
    let sec = US_PER_S as int;
    assert(h == 60 * mi);
    assert(mi == 60 * sec);
    vstd::arithmetic::div_mod::lemma_fundamental_div_mod(rem, h);
    vstd::arithmetic::div_mod::lemma_fundamental_div_mod(rem % h, mi);
    vstd::arithmetic::div_mod::lemma_fundamental_div_mod(rem % mi, sec);
    vstd::arithmetic::div_mod::lemma_mod_mod(rem, mi, 60);
    vstd::arithmetic::div_mod::lemma_mod_mod(rem, sec, 60);
    assert((rem % h) % mi == rem % mi);
    assert((rem % mi) % sec == rem % sec);
}

/// A nonzero microsecond-of-second written as six digits with its trailing
/// zeros trimmed reads back as itself.
proof fn lemma_fraction_reads_back(us: int)
    requires
        0 < us < 1_000_000,
    ensures
        spec_fraction_micros(trim_trailing_zeros(zero_padded(us as nat, 6))) == Ok::<int, TemporalErrorView>(us),
        all_digits(trim_trailing_zeros(zero_padded(us as nat, 6))),
{
    reveal_with_fuel(pow10, 7);
    let padded = zero_padded(us as nat, 6);
    let frac = trim_trailing_zeros(padded);
    crate::text::lemma_zero_padded(us as nat, 6);
    lemma_trim_trailing_zeros(padded);
    let k = (6 - frac.len()) as nat;
    if frac.len() == 0 {
        assert(digits_value(frac) == 0);
        assert(0 * pow10(k) == 0);
    }
    assert(all_digits(frac)) by {
        assert forall|i: int| 0 <= i < frac.len() implies is_digit(#[trigger] frac[i]) by {
            assert(frac[i] == padded[i]);
        }
    }
}

/// A clock reading written `HH:MM:SS` reads back as its fields, and holds no
/// `.`.
proof fn lemma_clock_reads_back(h: int, mi: int, sec: int)
    requires
        0 <= h <= 23,
        0 <= mi <= 59,
        0 <= sec <= 59,
    ensures
        ({
            let c = zero_padded(h as nat, 2) + seq![':'] + zero_padded(mi as nat, 2) + seq![':']
                + zero_padded(sec as nat, 2);
            &&& c.len() == 8
            &&& c[2] == ':' && c[5] == ':'
            &&& spec_parse_digits(c.subrange(0, 2)) == Ok::<int, TemporalErrorView>(h)
            &&& spec_parse_digits(c.subrange(3, 5)) == Ok::<int, TemporalErrorView>(mi)
            &&& spec_parse_digits(c.subrange(6, 8)) == Ok::<int, TemporalErrorView>(sec)
            &&& forall|j: int| 0 <= j < 8 ==> #[trigger] c[j] != '.' && c[j] != 'T'
        }),
{
    reveal_with_fuel(pow10, 3);
    lemma_padded_digits_read_back(h as nat, 2);
    lemma_padded_digits_read_back(mi as nat, 2);
    lemma_padded_digits_read_back(sec as nat, 2);
    crate::text::lemma_zero_padded(h as nat, 2);
    crate::text::lemma_zero_padded(mi as nat, 2);
    crate::text::lemma_zero_padded(sec as nat, 2);
    let th = zero_padded(h as nat, 2);
    let tmi = zero_padded(mi as nat, 2);
    let ts = zero_padded(sec as nat, 2);
    let c = th + seq![':'] + tmi + seq![':'] + ts;
    assert(c.subrange(0, 2) =~= th);
    assert(c.subrange(3, 5) =~= tmi);
    assert(c.subrange(6, 8) =~= ts);
    assert forall|j: int| 0 <= j < 8 implies #[trigger] c[j] != '.' && c[j] != 'T' by {
        if j < 2 {
            assert(c[j] == th[j]);
        } else if 2 < j < 5 {
            assert(c[j] == tmi[j - 3]);
        } else if 5 < j {
            assert(c[j] == ts[j - 6]);
        }
    }
}

/// A timestamp's canonical text reads back as the same timestamp, for every
/// timestamp of the four-digit-year range.
#[verifier::rlimit(30)]
pub proof fn lemma_timestamp_text_round_trips(micros: int)
    requires
        MIN_YEAR <= year_of_days(micros / (US_PER_DAY as int)) <= MAX_YEAR,
    ensures
        spec_parse_timestamp(spec_render_timestamp(micros)) == Ok::<int, TemporalErrorView>(micros),
{
    let days = micros / (US_PER_DAY as int);
    let rem = micros % (US_PER_DAY as int);
    vstd::arithmetic::div_mod::lemma_fundamental_div_mod(micros, US_PER_DAY as int);
    lemma_date_text_round_trips(days);
    lemma_civil_round_trip(days);
    lemma_clock_fields(rem);
    let (y, mo, d, h, mi, sec, us) = spec_parts(micros);
    lemma_clock_reads_back(h, mi, sec);
    let date = spec_render_date(days);
    let clock_text = zero_padded(h as nat, 2) + seq![':'] + zero_padded(mi as nat, 2) + seq![':']
        + zero_padded(sec as nat, 2);
    let t = spec_render_timestamp(micros);
    let frac = trim_trailing_zeros(zero_padded(us as nat, 6));
    let tail = if us != 0 {
        seq!['.'] + frac
    } else {
        Seq::<char>::empty()
    };
    assert(t =~= date + seq!['T'] + clock_text + tail);
    assert forall|j: int| 0 <= j < 10 implies #[trigger] t[j] != 'T' by {
        assert(t[j] == date[j]);
    }
    crate::text::lemma_first_index(t, 'T', 10);
    assert(t.take(10) =~= date);
    let time_text = t.skip(11);
    assert(time_text =~= clock_text + tail);
    assert forall|j: int| 0 <= j < 8 implies #[trigger] time_text[j] != '.' by {
        assert(time_text[j] == clock_text[j]);
    }
    crate::text::lemma_first_index(time_text, '.', 8);
    if us != 0 {
        lemma_fraction_reads_back(us);
        assert(time_text.take(8) =~= clock_text);
        assert(time_text.skip(9) =~= frac);
    } else {
        assert(time_text =~= clock_text);
    }
}

/// One friendly component, `n` and the suffix of unit `i`, read after a unit
/// ranked `last`, adds `n` of the unit to the total and goes on with what
/// follows, a unit ranked `i` now the last.
proof fn lemma_component_read_back(n: nat, i: nat, tail: Seq<char>, last: int, total: int)
    requires
        i < 6,
        last < i,
        n >= 1,
        0 <= total,
        total + n * duration_unit_us(i) <= i64::MAX,
        tail.len() > 0 ==> is_digit(tail[0]),
    ensures
        spec_friendly(decimal(n) + duration_unit_suffix(i) + tail, last, total) == spec_friendly(
            tail,
            i as int,
            total + n * duration_unit_us(i),
        ),
{
    let u = duration_unit_us(i);
    let digits = decimal(n);
    let suffix = duration_unit_suffix(i);
    let text = digits + suffix + tail;
    crate::text::lemma_decimal_digits(n);
    assert(n <= i64::MAX) by (nonlinear_arith)
        requires
            total + n * u <= i64::MAX,
            u >= 1,
            total >= 0,
            n >= 0,
    ;
    assert forall|j: int| 0 <= j < digits.len() implies is_digit(#[trigger] text[j]) by {
        assert(text[j] == digits[j]);
    }
    assert(text[digits.len() as int] == suffix[0]);
    crate::text::lemma_digit_run(text, digits.len() as int);
    assert(text.take(digits.len() as int) =~= digits);
    let after = text.skip(digits.len() as int);
    assert(after =~= suffix + tail);
    if suffix.len() == 1 && tail.len() > 0 {
        assert(after[1] == tail[0]);
    }
    assert(spec_friendly_unit(after) == Some((suffix.len(), u as int, i)));
    assert(text.skip((digits.len() + suffix.len()) as int) =~= tail);
}

/// The decomposition of `r` from unit `i` on, read as friendly duration
/// components after a unit ranked `last`, adds `r` to the running total:
/// each component's digits end where its unit's letters start, and the units
/// come in strictly decreasing size.
proof fn lemma_units_read_back(r: nat, i: nat, last: int, total: int)
    requires
        i <= 6,
        last < i,
        i > 0 ==> r < duration_unit_us((i - 1) as nat),
        0 <= total,
        total + r <= i64::MAX,
    ensures
        spec_friendly(spec_render_units(r, i), last, total) == Ok::<int, TemporalErrorView>(total + r),
        spec_render_units(r, i).len() > 0 ==> is_digit(spec_render_units(r, i)[0]),
        (spec_render_units(r, i).len() == 0) == (r == 0),
    decreases 6 - i,
{
    if i >= 6 {
        assert(duration_unit_us(5) == 1);
    } else {
        let u = duration_unit_us(i);
        let n = r / u;
        let rest = r % u;
        vstd::arithmetic::div_mod::lemma_fundamental_div_mod(r as int, u as int);
        if i > 0 {
            assert(u <= duration_unit_us((i - 1) as nat));
        }
        assert(u * n == n * u) by (nonlinear_arith);
        assert(n * u + rest == r);
        let tail = spec_render_units(rest, i + 1);
        if n != 0 {
            lemma_units_read_back(rest, i + 1, i as int, total + n * u);
            lemma_component_read_back(n, i, tail, last, total);
            crate::text::lemma_decimal_digits(n);
            assert(spec_render_units(r, i) =~= decimal(n) + duration_unit_suffix(i) + tail);
            assert(spec_render_units(r, i)[0] == decimal(n)[0]);
        } else {
            lemma_units_read_back(rest, i + 1, last, total);
            assert(spec_render_units(r, i) =~= tail);
        }
    }
}

/// `0s` reads back as the zero duration.
proof fn lemma_zero_duration_reads_back()
    ensures
        spec_parse_duration(seq!['0', 's']) == Ok::<int, TemporalErrorView>(0),
{
    let t = seq!['0', 's'];
    crate::text::lemma_digit_run(t, 1);
    assert(t.take(1) =~= seq!['0']);
    let zero = seq!['0'];
    assert(zero.drop_last() =~= Seq::<char>::empty());
    assert(digits_value(Seq::<char>::empty()) == 0);
    assert(zero.last() == '0');
    assert(crate::text::digit_value('0') == 0);
    assert(digits_value(zero) == 10 * digits_value(zero.drop_last()) + crate::text::digit_value(zero.last()));
    assert(digits_value(zero) == 0);
    assert(all_digits(seq!['0']));
    assert(t.skip(1) =~= seq!['s']);
    assert(t.skip(2) =~= Seq::<char>::empty());
    assert(spec_parse_digits(t.take(1)) == Ok::<int, TemporalErrorView>(0));
    assert(spec_friendly_unit(t.skip(1)) == Some((1nat, US_PER_S as int, 3nat)));
    assert(spec_friendly(t.skip(2), 3, 0) == Ok::<int, TemporalErrorView>(0));
    assert(digit_run(t) == 1);
    assert(t.len() == 2);
    assert(0 * (US_PER_S as int) == 0);
    assert(spec_friendly(t, -1, 0) == Ok::<int, TemporalErrorView>(0));
}

/// A duration's canonical text reads back as the same duration, for every
/// duration whose magnitude fits (all but the most negative count).
pub proof fn lemma_duration_text_round_trips(micros: int)
    requires
        -i64::MAX <= micros <= i64::MAX,
    ensures
        spec_parse_duration(spec_render_duration(micros)) == Ok::<int, TemporalErrorView>(micros),
{
    let t = spec_render_duration(micros);
    if micros == 0 {
        lemma_zero_duration_reads_back();
    } else {
        let m = if micros < 0 {
            -micros
        } else {
            micros
        };
        lemma_units_read_back(m as nat, 0, -1, 0);
        let body = spec_render_units(m as nat, 0);
        if micros < 0 {
            assert(t.skip(1) =~= body);
        }
        assert(body[0] != 'P' && body[0] != '-');
    }
}

fn split_offset(t: &Vec<char>) -> (r: Result<(usize, i64), TemporalError>)
    ensures
        match r {
            Ok((end, offset)) => end <= t.len() && spec_split_offset(t@) == Ok::<
                (Seq<char>, int),
                TemporalErrorView,
            >((t@.take(end as int), offset as int)),
            Err(e) => spec_split_offset(t@) == Err::<(Seq<char>, int), TemporalErrorView>(e@),
        },
        r matches Ok((_, offset)) ==> -86_400_000_000 < offset < 86_400_000_000,
{
    let n = t.len();
    if n > 0 && (t[n - 1] == 'Z' || t[n - 1] == 'z') {
        assert(t@.take(n - 1) =~= t@.drop_last());
        return Ok((n - 1, 0));
    }
    let mut last: Option<usize> = None;
    let mut off: usize = 0;
    let mut k: usize = 0;
    while k < n
        invariant
            k <= n == t.len(),
            off <= 14,
            (off >= 10) == (byte_offset(t@, k as int) >= 10),
            off < 10 ==> off == byte_offset(t@, k as int),
            last_sign(t@, k as int) == match last {
                Some(i) => Some(i as int),
                None => None::<int>,
            },
            last matches Some(i) ==> i < k,
        decreases n - k,
    {
        let c = t[k];
        if (c == '+' || c == '-') && off >= 10 {
            last = Some(k);
        }
        if off < 10 {
            off = off + crate::text::char_utf8_len(c);
        }
        k += 1;
    }
    assert(t@.take(n as int) =~= t@);
    let p = match last {
        None => return Ok((n, 0)),
        Some(p) => p,
    };
    let ghost offset = t@.skip(p as int);
    let mut digits: Vec<char> = Vec::new();
    let mut j = p + 1;
    assert(offset.skip(1).subrange(0, 0) =~= Seq::<char>::empty());
    while j < n
        invariant
            p + 1 <= j <= n == t.len(),
            offset == t@.skip(p as int),
            digits@ == remove_colons(offset.skip(1).subrange(0, j - p - 1)),
        decreases n - j,
    {
        let ghost part = offset.skip(1).subrange(0, j - p - 1);
        let ghost next = offset.skip(1).subrange(0, j - p);
        assert(next.drop_last() =~= part);
        assert(next.last() == t@[j as int]);
        if t[j] != ':' {
            digits.push(t[j]);
        }
        j += 1;
    }
    assert(offset.skip(1).subrange(0, n - p - 1) =~= offset.skip(1));
    let mut all = true;
    let mut q: usize = 0;
    while q < digits.len()
        invariant
            q <= digits.len(),
            all == forall|i: int| 0 <= i < q ==> is_digit(#[trigger] digits@[i]),
        decreases digits.len() - q,
    {
        if !char_is_digit(digits[q]) {
            all = false;
        }
        q += 1;
    }
    if digits.len() != 4 || !all {
        let value = sub_string(t, p, n);
        assert(t@.subrange(p as int, n as int) =~= offset);
        return Err(TemporalError::Component { field: "zone offset", value });
    }
    proof {
        assert(all_digits(digits@));
        assert(all_digits(digits@.subrange(0, 2))) by {
            assert forall|i: int| 0 <= i < 2 implies is_digit(#[trigger] digits@.subrange(0, 2)[i]) by {
                assert(digits@.subrange(0, 2)[i] == digits@[i]);
            }
        }
        assert(all_digits(digits@.subrange(2, 4))) by {
            assert forall|i: int| 0 <= i < 2 implies is_digit(#[trigger] digits@.subrange(2, 4)[i]) by {
                assert(digits@.subrange(2, 4)[i] == digits@[i + 2]);
            }
        }
        lemma_small_digits(digits@.subrange(0, 2));
        lemma_small_digits(digits@.subrange(2, 4));
        reveal_with_fuel(pow10, 3);
    }
    let hours = match parse_digits(&digits, 0, 2) {
        Ok(h) => h,
        Err(e) => return Err(e),
    };
    let minutes = match parse_digits(&digits, 2, 4) {
        Ok(m) => m,
        Err(e) => return Err(e),
    };
    proof {
        lemma_small_digits(digits@.subrange(0, 2));
        lemma_small_digits(digits@.subrange(2, 4));
        reveal_with_fuel(pow10, 3);
    }
    if hours > 23 || minutes > 59 {
        let value = sub_string(t, p, n);
        assert(t@.subrange(p as int, n as int) =~= offset);
        return Err(TemporalError::Component { field: "zone offset", value });
    }
    let magnitude = hours * US_PER_HOUR + minutes * US_PER_MIN;
    let negative = t[p] == '-';
    Ok((p, if negative { -magnitude } else { magnitude }))
}

/// Reads a timestamp for an explicitly declared column: deliberately more
/// permissive than [`parse_timestamp`] — a space in place of the `T`, a bare
/// date meaning midnight, and a trailing zone offset applied and dropped.
pub fn parse_timestamp_lenient(text: &str) -> (r: Result<Timestamp, TemporalError>)
    ensures
        view_result(r) == spec_parse_timestamp_lenient(text@),
{
    let all = crate::text::chars_of(text);
    let (lo, hi) = crate::text::trim_bounds(&all);
    let trimmed = crate::text::copy_range(&all, lo, hi);
    let (end, offset_micros) = match split_offset(&trimmed) {
        Ok(split) => split,
        Err(e) => return Err(e),
    };
    let mut body = crate::text::copy_range(&trimmed, 0, end);
    assert(body@ == trimmed@.take(end as int));
    let ghost given = body@;
    match find_char(&body, ' ') {
        Some(i) => {
            proof {
                crate::text::lemma_first_index_facts(body@, ' ');
            }
            body.set(i, 'T');
        },
        None => {},
    }
    assert(body@ == replace_first_space(given));
    assert(body@.subrange(0, body@.len() as int) =~= body@);
    let base = if find_char(&body, 'T').is_some() {
        match parse_timestamp_chars(&body, 0, body.len()) {
            Ok(t) => t,
            Err(e) => return Err(e),
        }
    } else {
        match parse_date_chars(&body, 0, body.len()) {
            Ok(d) => {
                proof {
                    let (y, m, dd) = spec_split_date(body@)->Ok_0;
                    lemma_valid_days_bounds(y, m, dd);
                }
                d.at_midnight()
            },
            Err(e) => return Err(e),
        }
    };
    match base.micros().checked_sub(offset_micros) {
        Some(shifted) => Timestamp::from_micros(shifted),
        None => Err(TemporalError::Range),
    }
}

} // verus!
