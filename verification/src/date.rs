//! Calendar dates.  A `Date` holds what a `chrono::NaiveDate` holds as a plain value:
//! the number of days since January 1 of year 1 (that day being day 1).  Parsing,
//! printing and time-zone conversion are done by `chrono` and `chrono-tz`.
use vstd::prelude::*;
use chrono::{Datelike, NaiveDate, NaiveDateTime, NaiveTime, TimeZone, Utc};
use chrono_tz::US::Eastern;

verus! {

/// The widest day number kept: well inside what `chrono` can represent.
pub const MAX_DAYS_FROM_CE: i32 = 95000000i32;

/// A day of the proleptic Gregorian calendar.
#[derive(Clone, Copy, Debug, PartialEq, Eq, Structural)]
pub struct Date {
    days: i32,
}

impl Date {
    #[verifier::type_invariant]
    spec fn inv(self) -> bool {
        -MAX_DAYS_FROM_CE <= self.days <= MAX_DAYS_FROM_CE
    }

    /// The day number: days since January 1 of year 1, which is day 1.
    pub closed spec fn day_num(self) -> int {
        self.days as int
    }

    pub fn num_days_from_ce(&self) -> (r: i32)
        ensures
            r == self.day_num(),
            -MAX_DAYS_FROM_CE <= r <= MAX_DAYS_FROM_CE,
    {
        proof {
            use_type_invariant(self);
        }
        self.days
    }

    /// The date with the given day number, when it is in the kept range.
    pub fn from_num_days_from_ce(days: i32) -> (r: Option<Date>)
        ensures
            r is Some <==> -MAX_DAYS_FROM_CE <= days <= MAX_DAYS_FROM_CE,
            r matches Some(d) ==> d.day_num() == days,
    {
        if -MAX_DAYS_FROM_CE <= days && days <= MAX_DAYS_FROM_CE {
            Some(Date { days })
        } else {
            None
        }
    }

    pub fn le(&self, other: &Date) -> (r: bool)
        ensures
            r == (self.day_num() <= other.day_num()),
    {
        self.days <= other.days
    }

    pub fn lt(&self, other: &Date) -> (r: bool)
        ensures
            r == (self.day_num() < other.day_num()),
    {
        self.days < other.days
    }

    /// Two dates are the same day exactly when they are equal.
    pub proof fn lemma_day_num_eq(a: Date, b: Date)
        ensures
            (a.day_num() == b.day_num()) <==> (a == b),
    {
    }

    pub fn eq_date(&self, other: &Date) -> (r: bool)
        ensures
            r == (self.day_num() == other.day_num()),
    {
        self.days == other.days
    }

    /// The number of days from `other` to `self` (what `signed_duration_since` measures
    /// in whole days).
    pub fn days_since(&self, other: &Date) -> (r: i64)
        ensures
            r == self.day_num() - other.day_num(),
    {
        proof {
            use_type_invariant(self);
            use_type_invariant(other);
        }
        self.days as i64 - other.days as i64
    }

    /// The date written as `chrono` writes it (`%Y-%m-%d`).
    pub fn to_string(&self) -> (r: String)
        ensures
            r@ == naive_date_to_string(self.day_num()),
    {
        proof {
            use_type_invariant(self);
        }
        chrono_date_to_string(self.days)
    }

    /// `s` parses with the `chrono` format string `fmt` to a date in the kept range.
    pub open spec fn parses(s: Seq<char>, fmt: Seq<char>) -> bool {
        naive_date_parse(s, fmt) matches Some(d) && -MAX_DAYS_FROM_CE <= d <= MAX_DAYS_FROM_CE
    }

    /// Parses `s` with the `chrono` format string `fmt`; a date outside the kept range
    /// is refused too.
    pub fn parse_from_str(s: &str, fmt: &str) -> (r: Option<Date>)
        ensures
            r is Some <==> (naive_date_parse(s@, fmt@) matches Some(d) && -MAX_DAYS_FROM_CE <= d
                <= MAX_DAYS_FROM_CE),
            r matches Some(d) ==> naive_date_parse(s@, fmt@) == Some(d.day_num()),
    {
        match chrono_parse_date(s, fmt) {
            Some(days) => Date::from_num_days_from_ce(days),
            None => None,
        }
    }
}

/// What `NaiveDate::parse_from_str` (`chrono`) gives back for a string and a format, as a
/// day number counted from January 1 of year 1; `None` when parsing fails.
pub uninterp spec fn naive_date_parse(s: Seq<char>, fmt: Seq<char>) -> Option<int>;

/// `NaiveDate::parse_from_str` (`chrono`) followed by `num_days_from_ce`; the result is
/// named.
#[verifier::external_body]
fn chrono_parse_date(s: &str, fmt: &str) -> (r: Option<i32>)
    ensures
        r is Some <==> naive_date_parse(s@, fmt@) is Some,
        r matches Some(d) ==> naive_date_parse(s@, fmt@) == Some(d as int),
{
    match NaiveDate::parse_from_str(s, fmt) {
        Ok(d) => Some(d.num_days_from_ce()),
        Err(_) => None,
    }
}

/// What `<NaiveDate as Display>` (`chrono`) writes for the date with the given day number.
pub uninterp spec fn naive_date_to_string(days: int) -> Seq<char>;

/// `NaiveDate::from_num_days_from_ce_opt` and `to_string` (`chrono`); the result is
/// named.  Every day number in the kept range is a date `chrono` can represent.
#[verifier::external_body]
fn chrono_date_to_string(days: i32) -> (r: String)
    requires
        -MAX_DAYS_FROM_CE <= days <= MAX_DAYS_FROM_CE,
    ensures
        r@ == naive_date_to_string(days as int),
{
    NaiveDate::from_num_days_from_ce_opt(days).unwrap().to_string()
}

/// What `Eastern.from_local_datetime(..).single()` followed by `with_timezone(&Utc)`
/// (`chrono-tz`) gives, as milliseconds since the Unix epoch, for the given day at the
/// given local hour, minute, second and millisecond: `None` where that local time does
/// not name exactly one instant (a gap or an overlap of the zone).
pub uninterp spec fn eastern_to_utc_millis(days: int, h: int, m: int, sec: int, milli: int) -> Option<int>;

/// The day number of 1883-11-18, the day US Eastern time replaced local mean time in
/// the zone's data (`tz/northamerica`, `America/New_York`): at 17:00 UTC the clocks went
/// back from 12:03:58 to 12:00:00, so local times from 12:00:00 to 12:03:57 occur twice.
pub const DAY_EASTERN_TIME_BEGAN: i32 = 687708;

/// `NaiveTime::from_hms_milli_opt`, `Eastern.from_local_datetime(..).single()` and
/// `with_timezone(&Utc)` (`chrono`, `chrono-tz`); the result is named.  Besides the name
/// it states one fact of the zone's compiled-in data (`America/New_York`, which
/// `US/Eastern` links to): every change of offset happens at 2:00 local time or at
/// midnight, except the change from local mean time on 1883-11-18 at 17:00 UTC, when
/// the clocks went back from 12:03:58 to 12:00:00.  So a local time from 10:00 to 13:59
/// names exactly one instant; of the local times 12:00 to 12:03 of that one day nothing
/// is stated.
#[verifier::external_body]
fn chrono_eastern_to_utc_millis(days: i32, h: u32, m: u32, sec: u32, milli: u32) -> (r: Option<i64>)
    requires
        -MAX_DAYS_FROM_CE <= days <= MAX_DAYS_FROM_CE,
        h < 24,
        m < 60,
        sec < 60,
        milli < 1000,
    ensures
        r is Some <==> eastern_to_utc_millis(days as int, h as int, m as int, sec as int, milli as int) is Some,
        r matches Some(v) ==> eastern_to_utc_millis(days as int, h as int, m as int, sec as int, milli as int)
            == Some(v as int),
        (10 <= h < 14 && !(days == DAY_EASTERN_TIME_BEGAN && h == 12 && m < 4)) ==> r is Some,
{
    let date = NaiveDate::from_num_days_from_ce_opt(days).unwrap();
    let time = NaiveTime::from_hms_milli_opt(h, m, sec, milli).unwrap();
    match Eastern.from_local_datetime(&NaiveDateTime::new(date, time)).single() {
        Some(local) => Some(local.with_timezone(&Utc).timestamp_millis()),
        None => None,
    }
}

/// A local time of day.
#[derive(Clone, Copy, Debug)]
pub struct TimeOfDay {
    pub hour: u32,
    pub min: u32,
    pub sec: u32,
    pub milli: u32,
}

/// The given day at the given Eastern local time, as milliseconds since the Unix epoch;
/// `None` where that local time falls in a gap or an overlap of the zone.
pub fn eastern_date_time_to_utc_millis(date: &Date, time: &TimeOfDay) -> (r: Option<i64>)
    requires
        time.hour < 24,
        time.min < 60,
        time.sec < 60,
        time.milli < 1000,
    ensures
        r is Some <==> eastern_to_utc_millis(
            date.day_num(),
            time.hour as int,
            time.min as int,
            time.sec as int,
            time.milli as int,
        ) is Some,
        r matches Some(v) ==> eastern_to_utc_millis(
            date.day_num(),
            time.hour as int,
            time.min as int,
            time.sec as int,
            time.milli as int,
        ) == Some(v as int),
        (10 <= time.hour < 14 && !(date.day_num() == DAY_EASTERN_TIME_BEGAN && time.hour == 12
            && time.min < 4)) ==> r is Some,
{
    let days = date.num_days_from_ce();
    chrono_eastern_to_utc_millis(days, time.hour, time.min, time.sec, time.milli)
}

/// `Utc::now` (`chrono`), as milliseconds since the Unix epoch.  Nothing is promised of
/// the result: it is the clock.
#[verifier::external_body]
pub(crate) fn utc_now_millis() -> (r: i64) {
    Utc::now().timestamp_millis()
}

} // verus!
