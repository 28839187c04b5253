//! Points in time and durations.
//!
//! A point in time is a count of nanoseconds since 1970-01-01 00:00:00
//! UTC (`i128`), limited to the range chrono's `NaiveDateTime` can hold; a
//! duration is a signed count of nanoseconds.  Parsing and printing calendar
//! dates is chrono's work and goes through the wrappers below.
use chrono::ParseError as ChronoParseError;
use vstd::prelude::*;

verus! {

/// `chrono::ParseError`, carried through unchanged.
#[verifier::external_type_specification]
#[verifier::external_body]
pub struct ExChronoParseError(ChronoParseError);

/// Seconds since the epoch of chrono's earliest date-time,
/// January 1, 262144 BCE, 00:00:00.
pub const MIN_TIMESTAMP: i64 = -8334601315200;

/// Seconds since the epoch of chrono's latest whole second,
/// December 31, 262142 CE, 23:59:59.
pub const MAX_TIMESTAMP: i64 = 8210266876799;

/// Nanoseconds in a second.
pub const NANOS_PER_SECOND: i128 = 1000000000;

/// Nanoseconds in a minute.
pub const NANOS_PER_MINUTE: i128 = 60000000000;

/// Nanoseconds in a day.
pub const NANOS_PER_DAY: i128 = 86400000000000;

/// chrono's earliest date-time, in nanoseconds since the epoch.
pub const MIN_TIME: i128 = -8334601315200000000000;

/// chrono's latest date-time, in nanoseconds since the epoch: the last
/// whole second with its fraction, or with a leap second on top.
pub const MAX_TIME: i128 = 8210266876800999999999;

/// Longest duration chrono's `TimeDelta` holds, in nanoseconds
/// (`i64::MAX` milliseconds).
pub const MAX_DELTA: i128 = 9223372036854775807000000;

/// A point in time chrono can represent, in nanoseconds since the epoch.
pub open spec fn valid_time(t: int) -> bool {
    MIN_TIME <= t <= MAX_TIME
}

/// A duration chrono's `TimeDelta` holds, in nanoseconds.
pub open spec fn valid_delta(d: int) -> bool {
    -MAX_DELTA <= d <= MAX_DELTA
}

/// The nanoseconds since the epoch of a date-time given as whole seconds
/// and the nanoseconds past them (beyond a second for a leap second).
pub open spec fn time_of(p: (i64, u32)) -> int {
    p.0 * 1000000000 + p.1
}

/// The whole seconds chrono is given for the time `t`: those before it,
/// but the latest second itself for a leap second on top of it.
pub open spec fn secs_of(t: int) -> int {
    if t > MAX_TIMESTAMP * 1000000000 + 999999999 {
        MAX_TIMESTAMP as int
    } else {
        t / 1000000000
    }
}

/// The nanoseconds past `secs_of(t)`.
pub open spec fn subsec_of(t: int) -> int {
    t - secs_of(t) * 1000000000
}

/// What `NaiveDateTime::parse_from_str(s, fmt)` gives, read as UTC: whole
/// seconds since the epoch and the nanoseconds past them (`None` when it
/// fails).
pub uninterp spec fn spec_parse_datetime(s: Seq<char>, fmt: Seq<char>) -> Option<(i64, u32)>;

/// What chrono's `Display` of the `NaiveDateTime` at `secs` seconds and
/// `nanos` nanoseconds after the epoch prints.
pub uninterp spec fn spec_format_datetime(secs: i64, nanos: u32) -> Seq<char>;

/// What chrono gives for the same time of day `months` calendar months
/// before the date-time at `secs` and `nanos` (`NaiveDate::checked_sub_months`),
/// as seconds and nanoseconds since the epoch.
pub uninterp spec fn spec_months_before(secs: i64, nanos: u32, months: u32) -> Option<(i64, u32)>;

/// `chrono::NaiveDateTime::parse_from_str`: parses `s` by the strftime-like
/// format `fmt`.  The result, read as UTC and given as whole seconds since
/// the epoch and nanoseconds past them, is named by `spec_parse_datetime`;
/// every value chrono produces lies in its range, with fewer than two
/// seconds of nanoseconds (more than one only for a leap second).
#[verifier::external_body]
fn parse_with_format(s: &str, fmt: &str) -> (r: Result<(i64, u32), ChronoParseError>)
    ensures
        match r {
            Ok(p) => spec_parse_datetime(s@, fmt@) == Some(p) && MIN_TIMESTAMP <= p.0 <= MAX_TIMESTAMP
                && p.1 < 2000000000,
            Err(_) => spec_parse_datetime(s@, fmt@) is None,
        },
{
    match chrono::NaiveDateTime::parse_from_str(s, fmt) {
        Ok(dt) => Ok((dt.and_utc().timestamp(), dt.and_utc().timestamp_subsec_nanos())),
        Err(e) => Err(e),
    }
}

/// The date-times whose year has four digits: from 0000-01-01 00:00:00 to
/// 9999-12-31 23:59:59, as whole seconds since the epoch.
pub open spec fn four_digit_year(secs: int) -> bool {
    -62167219200 <= secs <= 253402300799
}

/// A decimal digit.
pub open spec fn is_digit(c: char) -> bool {
    48 <= (c as u32) <= 57
}

/// The shape `YYYY-MM-DD HH:MM:SS`, then optionally a fraction: digits,
/// with `-` at 4 and 7, a space at 10, `:` at 13 and 16, and after the
/// seconds either nothing or a `.` and at least one more digit.
pub open spec fn datetime_shape(s: Seq<char>) -> bool {
    &&& s.len() >= 19
    &&& s.len() != 20
    &&& forall|i: int|
        0 <= i < s.len() ==> if i == 4 || i == 7 {
            #[trigger] s[i] == '-'
        } else if i == 10 {
            s[i] == ' '
        } else if i == 13 || i == 16 {
            s[i] == ':'
        } else if i == 19 {
            s[i] == '.'
        } else {
            is_digit(s[i])
        }
}

/// `Display` of `chrono::NaiveDateTime` for the date-time `secs` seconds
/// and `nanos` nanoseconds after the epoch; the text is named by
/// `spec_format_datetime`.  For a year of four digits chrono writes the
/// zero-padded date, a space and the time (`YYYY-MM-DD HH:MM:SS`, then a
/// `.` and 3, 6 or 9 digits when `nanos` is not zero), which
/// `parse_from_str` reads back to the same seconds and nanoseconds with the
/// spaced format and refuses with the `T` format (whose literal `T` meets
/// the space).
#[verifier::external_body]
fn format_parts(secs: i64, nanos: u32) -> (r: String)
    requires
        MIN_TIMESTAMP <= secs <= MAX_TIMESTAMP,
        nanos < 1000000000 || (secs == MAX_TIMESTAMP && nanos < 2000000000),
    ensures
        r@ == spec_format_datetime(secs, nanos),
        four_digit_year(secs as int) ==> datetime_shape(r@),
        four_digit_year(secs as int) ==> spec_parse_datetime(r@, iso_format()) is None,
        four_digit_year(secs as int) ==> spec_parse_datetime(r@, spaced_format()) == Some((secs, nanos)),
{
    chrono::DateTime::from_timestamp(secs, nanos).unwrap().naive_utc().to_string()
}

/// The text chrono prints for the time `t`.
pub open spec fn time_text(t: int) -> Seq<char> {
    spec_format_datetime(secs_of(t) as i64, subsec_of(t) as u32)
}

/// Splits a valid time into the whole seconds and nanoseconds chrono is
/// given for it.
pub fn to_parts(t: i128) -> (r: (i64, u32))
    requires
        valid_time(t as int),
    ensures
        r.0 == secs_of(t as int),
        r.1 == subsec_of(t as int),
        MIN_TIMESTAMP <= r.0 <= MAX_TIMESTAMP,
        r.1 < 1000000000 || (r.0 == MAX_TIMESTAMP && r.1 < 2000000000),
        time_of(r) == t,
{
    let top: i128 = 8210266876799999999999;
    if t > top {
        let n = t - 8210266876799000000000;
        (MAX_TIMESTAMP, n as u32)
    } else {
        let s = t / NANOS_PER_SECOND;
        let n = t % NANOS_PER_SECOND;
        let (s, n) = if n < 0 {
            (s - 1, n + NANOS_PER_SECOND)
        } else {
            (s, n)
        };
        assert(s == (t as int) / 1000000000 && n == (t as int) % 1000000000) by {
            assert(t as int == s * 1000000000 + n) by (nonlinear_arith)
                requires
                    (t / NANOS_PER_SECOND) * NANOS_PER_SECOND + t % NANOS_PER_SECOND == t,
                    n < 0 ==> s == t / NANOS_PER_SECOND - 1 && n == t % NANOS_PER_SECOND
                        + NANOS_PER_SECOND,
                    n >= 0 ==> s == t / NANOS_PER_SECOND && n == t % NANOS_PER_SECOND,
            ;
        }
        (s as i64, n as u32)
    }
}

/// The time chrono reports as whole seconds and nanoseconds.
pub fn from_parts(secs: i64, nanos: u32) -> (r: i128)
    ensures
        r == time_of((secs, nanos)),
{
    secs as i128 * NANOS_PER_SECOND + nanos as i128
}

/// `Display` of `chrono::NaiveDateTime` for the time `t`.  For a year of
/// four digits it has the shape `YYYY-MM-DD HH:MM:SS[.fraction]` and
/// reads back to `t`.
pub(crate) fn format_datetime(t: i128) -> (r: String)
    requires
        valid_time(t as int),
    ensures
        r@ == time_text(t as int),
        four_digit_year(secs_of(t as int)) ==> datetime_shape(r@),
        four_digit_year(secs_of(t as int)) ==> datetime_of(r@) == Some(t),
{
    let (secs, nanos) = to_parts(t);
    format_parts(secs, nanos)
}

/// `chrono::NaiveDate::checked_sub_months` applied to the date of the
/// date-time at `secs` and `nanos`, keeping its time of day; the result is
/// named by `spec_months_before`, and when there is one it lies in chrono's
/// range and, months being subtracted, is not after the date-time given.
#[verifier::external_body]
fn months_back(secs: i64, nanos: u32, months: u32) -> (r: Option<(i64, u32)>)
    requires
        MIN_TIMESTAMP <= secs <= MAX_TIMESTAMP,
        nanos < 1000000000 || (secs == MAX_TIMESTAMP && nanos < 2000000000),
    ensures
        r == spec_months_before(secs, nanos, months),
        r matches Some(u) ==> MIN_TIMESTAMP <= u.0 <= MAX_TIMESTAMP && u.1 == nanos && time_of(u)
            <= time_of((secs, nanos)),
{
    let now = chrono::DateTime::from_timestamp(secs, nanos).unwrap();
    match now.date_naive().checked_sub_months(chrono::Months::new(months)) {
        Some(d) => {
            let u = d.and_time(now.time()).and_utc();
            Some((u.timestamp(), u.timestamp_subsec_nanos()))
        },
        None => None,
    }
}

/// The same time of day `months` calendar months before `t`.
pub open spec fn months_before_of(t: int, months: u32) -> Option<int> {
    match spec_months_before(secs_of(t) as i64, subsec_of(t) as u32, months) {
        Some(u) => Some(time_of(u)),
        None => None,
    }
}

/// The same time of day `months` calendar months before `t`, when chrono
/// has such a date.
pub(crate) fn months_before(t: i128, months: u32) -> (r: Option<i128>)
    requires
        valid_time(t as int),
    ensures
        match r {
            Some(u) => months_before_of(t as int, months) == Some(u as int) && valid_time(u as int)
                && u <= t,
            None => months_before_of(t as int, months) is None,
        },
{
    let (secs, nanos) = to_parts(t);
    match months_back(secs, nanos, months) {
        Some(u) => Some(from_parts(u.0, u.1)),
        None => None,
    }
}

/// The log's date-time syntax with a `T` between date and time.
pub open spec fn iso_format() -> Seq<char> {
    "%Y-%m-%dT%H:%M:%S%.f"@
}

/// The log's date-time syntax with a space between date and time.
pub open spec fn spaced_format() -> Seq<char> {
    "%Y-%m-%d %H:%M:%S%.f"@
}

/// The time a log date-time field denotes: `YYYY-MM-DDTHH:MM:SS` or
/// `YYYY-MM-DD HH:MM:SS`, with an optional fraction.
pub open spec fn datetime_of(s: Seq<char>) -> Option<i128> {
    match spec_parse_datetime(s, iso_format()) {
        Some(p) => Some(time_of(p) as i128),
        None => match spec_parse_datetime(s, spaced_format()) {
            Some(p) => Some(time_of(p) as i128),
            None => None,
        },
    }
}

/// Parses a log date-time field in either accepted syntax.
pub fn parse_datetime(s: &str) -> (r: Result<i128, ChronoParseError>)
    ensures
        match r {
            Ok(t) => datetime_of(s@) == Some(t) && valid_time(t as int),
            Err(_) => datetime_of(s@) is None,
        },
{
    let iso = "%Y-%m-%dT%H:%M:%S%.f";
    let spaced = "%Y-%m-%d %H:%M:%S%.f";
    proof {
        assert(iso@ == iso_format());
        assert(spaced@ == spaced_format());
    }
    match parse_with_format(s, iso) {
        Ok(p) => Ok(from_parts(p.0, p.1)),
        Err(_) => match parse_with_format(s, spaced) {
            Ok(p) => Ok(from_parts(p.0, p.1)),
            Err(e) => Err(e),
        },
    }
}

/// Whole minutes in a duration, truncated toward zero (`num_minutes`).
pub open spec fn minutes_of(d: int) -> int {
    if d >= 0 {
        d / 60000000000
    } else {
        -((-d) / 60000000000)
    }
}

/// Whole minutes in a duration, truncated toward zero.
pub fn num_minutes(d: i128) -> (r: i64)
    requires
        valid_delta(d as int),
    ensures
        r == minutes_of(d as int),
{
    if d >= 0 {
        (d / NANOS_PER_MINUTE) as i64
    } else {
        -(((-d) / NANOS_PER_MINUTE) as i64)
    }
}

/// Start of the UTC day that contains `t`.
pub open spec fn spec_day_start(t: int) -> int {
    t - t % 86400000000000
}

/// Start of the UTC day that contains `t` (`date_naive().and_time(MIN)`).
pub fn day_start(t: i128) -> (r: i128)
    requires
        valid_time(t as int),
    ensures
        r == spec_day_start(t as int),
        valid_time(r as int),
{
    let rem = t % NANOS_PER_DAY;
    let r = if rem < 0 {
        t - (rem + NANOS_PER_DAY)
    } else {
        t - rem
    };
    assert(r == spec_day_start(t as int)) by {
        assert(t as int % 86400000000000 == if rem < 0 {
            rem + 86400000000000
        } else {
            rem as int
        });
    }
    r
}

} // verus!
