//! Instants with an offset from UTC, and the calendar by which log files are
//! named and rotated.
use std::fmt::Write;

use crate::rotation::RotationAge;
use crate::text::{digit_char, lemma_order_head, lemma_order_prefix, sorts_before, text_of};
use chrono::Timelike;
use vstd::arithmetic::div_mod::{
    lemma_div_multiples_vanish, lemma_fundamental_div_mod, lemma_fundamental_div_mod_converse,
    lemma_mod_mod, lemma_mod_multiples_basic,
};
use vstd::prelude::*;

verus! {

/// The first second that an instant can have, counted from 1970-01-01 00:00 UTC:
/// the first of January of the year -262143.
pub const MIN_SECS: i64 = -8334601228800;

/// The last second that an instant can have: the last of the year 262142.
pub const MAX_SECS: i64 = 8210266876799;

/// A fixed difference between local time and UTC.
#[derive(Debug, Clone, Copy, PartialEq, Eq, Structural)]
pub struct FixedOffset {
    local_minus_utc: i32,
}

impl View for FixedOffset {
    type V = int;

    /// The seconds by which local time is ahead of UTC.
    closed spec fn view(&self) -> int {
        self.local_minus_utc as int
    }
}

impl FixedOffset {
    /// Less than a day in either direction.
    #[verifier::type_invariant]
    pub open spec fn within_a_day(self) -> bool {
        -86400 < self@ < 86400
    }

    /// The offset by which local time is `secs` seconds ahead of UTC, or `None`
    /// where that is a day or more in either direction.
    pub fn east_opt(secs: i32) -> (r: Option<FixedOffset>)
        ensures
            r is Some <==> -86400 < secs < 86400,
            r matches Some(offset) ==> offset@ == secs,
    {
        if -86400 < secs && secs < 86400 {
            Some(FixedOffset { local_minus_utc: secs })
        } else {
            None
        }
    }

    /// The seconds by which local time is ahead of UTC.
    pub fn local_minus_utc(&self) -> (r: i32)
        ensures
            r == self@,
            -86400 < r < 86400,
    {
        proof {
            use_type_invariant(self);
        }
        self.local_minus_utc
    }
}

/// An instant as the contracts see it.
pub struct TimeView {
    /// Whole seconds since 1970-01-01 00:00 UTC.
    pub secs: int,
    /// Nanoseconds since the last whole second.
    pub nanos: int,
    /// The seconds by which local time is ahead of UTC.
    pub offset: int,
}

impl TimeView {
    /// The instant is one that the calendar covers.
    pub open spec fn valid(self) -> bool {
        &&& MIN_SECS <= self.secs <= MAX_SECS
        &&& 0 <= self.nanos < 1000000000
        &&& -86400 < self.offset < 86400
    }

    /// The reading of a local clock, in seconds since 1970-01-01 00:00.
    pub open spec fn local(self) -> int {
        self.secs + self.offset
    }

    /// The local date, in days since 1970-01-01.
    pub open spec fn day(self) -> int {
        self.local() / 86400
    }

    /// The hour of the local time of day.
    pub open spec fn hour(self) -> int {
        self.local() % 86400 / 3600
    }

    /// The minute of the local time of day.
    pub open spec fn minute(self) -> int {
        self.local() % 3600 / 60
    }

    /// The instant is `other` or comes after it.
    pub open spec fn reached(self, other: TimeView) -> bool {
        self.secs > other.secs || (self.secs == other.secs && self.nanos >= other.nanos)
    }

    /// The count of the period of local time in which the instant lies.
    pub open spec fn period_of(self, age: RotationAge) -> int {
        self.local() / age.period()
    }

    /// The instant one period on is still covered, in UTC and in local time.
    pub open spec fn can_advance(self, age: RotationAge) -> bool {
        &&& self.secs + age.period() <= MAX_SECS
        &&& MIN_SECS <= self.local() + age.period() <= MAX_SECS
    }

    /// The beginning of the local period behind the one in which the instant lies.
    pub open spec fn next_boundary(self, age: RotationAge) -> TimeView {
        TimeView {
            secs: (self.period_of(age) + 1) * age.period() - self.offset,
            nanos: 0,
            offset: self.offset,
        }
    }
}

/// An instant with the offset of the time zone in which it is read.
#[derive(Debug, Clone, Copy, PartialEq, Eq, Structural)]
pub struct DateTime {
    secs: i64,
    nanos: u32,
    offset: FixedOffset,
}

impl View for DateTime {
    type V = TimeView;

    closed spec fn view(&self) -> TimeView {
        TimeView { secs: self.secs as int, nanos: self.nanos as int, offset: self.offset@ }
    }
}

impl DateTime {
    /// The instant is one that the calendar covers.
    #[verifier::type_invariant]
    pub open spec fn covered(self) -> bool {
        self@.valid()
    }

    /// The instant `secs` seconds and `nanos` nanoseconds after 1970-01-01 00:00
    /// UTC, or `None` where the calendar does not cover it.
    pub fn from_timestamp(secs: i64, nanos: u32, offset: FixedOffset) -> (r: Option<DateTime>)
        ensures
            r is Some <==> MIN_SECS <= secs <= MAX_SECS && nanos < 1000000000,
            r is Some <==> -8334601228800 <= secs <= 8210266876799 && nanos < 1000000000,
            r matches Some(t) ==> t@ == (TimeView {
                secs: secs as int,
                nanos: nanos as int,
                offset: offset@,
            }),
    {
        proof {
            use_type_invariant(&offset);
        }
        if MIN_SECS <= secs && secs <= MAX_SECS && nanos < 1000000000 {
            Some(DateTime { secs, nanos, offset })
        } else {
            None
        }
    }

    /// Whole seconds since 1970-01-01 00:00 UTC.
    pub fn timestamp(&self) -> (r: i64)
        ensures
            r == self@.secs,
    {
        self.secs
    }

    /// Nanoseconds since the last whole second.
    pub fn timestamp_subsec_nanos(&self) -> (r: u32)
        ensures
            r == self@.nanos,
    {
        self.nanos
    }

    /// The offset of the time zone in which the instant is read.
    pub fn offset(&self) -> (r: FixedOffset)
        ensures
            r@ == self@.offset,
    {
        self.offset
    }

    /// Tells whether the instant is `other` or comes after it.
    pub fn has_reached(&self, other: &DateTime) -> (r: bool)
        ensures
            r == self@.reached(other@),
            r <==> self@.secs * 1000000000 + self@.nanos >= other@.secs * 1000000000 + other@.nanos,
    {
        proof {
            use_type_invariant(self);
            use_type_invariant(other);
        }
        self.secs > other.secs || (self.secs == other.secs && self.nanos >= other.nanos)
    }

    /// Tells whether the instant one period on is still covered.
    pub fn is_advanceable(&self, age: RotationAge) -> (r: bool)
        ensures
            r == self@.can_advance(age),
            ({
                let later = self@.secs + match age {
                    RotationAge::Minutely => 60int,
                    RotationAge::Hourly => 3600int,
                    RotationAge::Daily => 86400int,
                };
                r <==> later <= 8210266876799 && -8334601228800 <= later + self@.offset
                    <= 8210266876799
            }),
    {
        proof {
            use_type_invariant(self);
        }
        let period: i64 = match age {
            RotationAge::Minutely => 60,
            RotationAge::Hourly => 3600,
            RotationAge::Daily => 86400,
        };
        let later: i64 = self.secs + period;
        let local: i64 = later + self.offset.local_minus_utc() as i64;
        later <= MAX_SECS && MIN_SECS <= local && local <= MAX_SECS
    }
}

/// A time of day without fractions of a second.
#[derive(Debug, Clone, Copy, PartialEq, Eq, Structural)]
pub struct TimeOfDay {
    pub hour: u32,
    pub minute: u32,
    pub second: u32,
}

impl TimeOfDay {
    /// The fields are those of a clock.
    pub open spec fn valid(self) -> bool {
        self.hour < 24 && self.minute < 60 && self.second < 60
    }

    /// Seconds since midnight.
    pub open spec fn seconds(self) -> int {
        self.hour * 3600 + self.minute * 60 + self.second
    }

    /// The time of day with the given fields, or `None` where no clock shows them.
    pub fn from_hms_opt(hour: u32, minute: u32, second: u32) -> (r: Option<TimeOfDay>)
        ensures
            r is Some <==> hour < 24 && minute < 60 && second < 60,
            r matches Some(t) ==> t == (TimeOfDay { hour, minute, second }),
    {
        if hour < 24 && minute < 60 && second < 60 {
            Some(TimeOfDay { hour, minute, second })
        } else {
            None
        }
    }
}

/// The current time, read in the time zone with the given offset.
///
/// Calls `chrono::Utc::now` and `with_timezone`. Two calls may give any two
/// instants; trusted is that each is one that the calendar covers, without a
/// leap second, and that it carries the offset. A system clock that shows a time
/// before 1970 makes `Utc::now` panic.
#[verifier::external_body]
fn clock_now(offset: FixedOffset) -> (r: DateTime)
    ensures
        r@.valid(),
        r@.offset == offset@,
{
    let zone = chrono::FixedOffset::east_opt(offset.local_minus_utc).unwrap();
    let now = chrono::Utc::now().with_timezone(&zone);
    DateTime { secs: now.timestamp(), nanos: now.timestamp_subsec_nanos(), offset }
}

/// The present offset of the system's time zone.
///
/// Calls `chrono::Local::now` and `offset`. The offset depends on the machine
/// and on the time; trusted is that it is less than a day in either direction. Where
/// the environment sets a time zone of a day or more, chrono panics.
#[verifier::external_body]
fn local_offset() -> (r: FixedOffset)
    ensures
        -86400 < r@ < 86400,
{
    FixedOffset { local_minus_utc: chrono::Local::now().offset().local_minus_utc() }
}

/// The clock, read in the time zone with the given offset, can show the instant.
pub closed spec fn clock_shows(offset: int, now: TimeView) -> bool {
    exists|o: FixedOffset, t: DateTime|
        o@ == offset && t@ == now && #[trigger] call_ensures(clock_now, (o,), t)
}

/// The system, asked for the present offset of its time zone, can answer this one.
pub closed spec fn is_local_offset(offset: int) -> bool {
    exists|o: FixedOffset| o@ == offset && #[trigger] call_ensures(local_offset, (), o)
}

/// What the clock shows, read in the time zone with the given offset.
pub fn read_clock(offset: FixedOffset) -> (r: DateTime)
    ensures
        clock_shows(offset@, r@),
        r@.valid(),
        r@.offset == offset@,
{
    let now = clock_now(offset);
    assert(call_ensures(clock_now, (offset,), now));
    now
}

/// What the system answers for the present offset of its time zone.
pub fn read_local_offset() -> (r: FixedOffset)
    ensures
        is_local_offset(r@),
        -86400 < r@ < 86400,
{
    let offset = local_offset();
    assert(call_ensures(local_offset, (), offset));
    offset
}

/// The instant `minutes` minutes after `t`, in the same time zone.
///
/// Calls the `Add<TimeDelta>` of `chrono::DateTime` on `chrono::Duration::minutes`,
/// which panics where the sum is out of range: `requires` leaves that out.
/// Trusted is that it counts every minute as sixty seconds.
#[verifier::external_body]
pub(crate) fn plus_minutes(t: DateTime, minutes: i64) -> (r: DateTime)
    requires
        MIN_SECS <= t@.secs + minutes * 60 <= MAX_SECS,
    ensures
        r@ == (TimeView { secs: t@.secs + minutes * 60, ..t@ }),
{
    let zone = chrono::FixedOffset::east_opt(t.offset.local_minus_utc).unwrap();
    let base = chrono::DateTime::from_timestamp(t.secs, t.nanos).unwrap().with_timezone(&zone);
    let sum = base + chrono::Duration::minutes(minutes);
    DateTime { secs: sum.timestamp(), nanos: sum.timestamp_subsec_nanos(), offset: t.offset }
}

/// The hour of the local time of day.
///
/// Calls `hour` of `chrono::Timelike`. Trusted is that it is the number of whole
/// hours since local midnight.
#[verifier::external_body]
pub(crate) fn hour_of(t: DateTime) -> (r: u32)
    ensures
        r == t@.hour(),
{
    let zone = chrono::FixedOffset::east_opt(t.offset.local_minus_utc).unwrap();
    chrono::DateTime::from_timestamp(t.secs, t.nanos).unwrap().with_timezone(&zone).hour()
}

/// The minute of the local time of day.
///
/// Calls `minute` of `chrono::Timelike`. Trusted is that it is the number of
/// whole minutes since the last full local hour.
#[verifier::external_body]
pub(crate) fn minute_of(t: DateTime) -> (r: u32)
    ensures
        r == t@.minute(),
{
    let zone = chrono::FixedOffset::east_opt(t.offset.local_minus_utc).unwrap();
    chrono::DateTime::from_timestamp(t.secs, t.nanos).unwrap().with_timezone(&zone).minute()
}

/// The instant at which it is `time` on the local date of `t`.
///
/// Calls `DateTime::<FixedOffset>::from_local` on `date_naive().and_time(..)` of
/// chrono, which panic where the local date or the result is out of range:
/// `requires` leaves that out. Trusted is that the date and the offset stay and
/// that the time of day is replaced as a whole.
#[verifier::external_body]
#[allow(deprecated)]
pub(crate) fn with_time(t: DateTime, time: TimeOfDay) -> (r: DateTime)
    requires
        time.valid(),
        MIN_SECS <= t@.local() <= MAX_SECS,
        MIN_SECS <= t@.day() * 86400 + time.seconds() - t@.offset <= MAX_SECS,
    ensures
        r@ == (TimeView {
            secs: t@.day() * 86400 + time.seconds() - t@.offset,
            nanos: 0,
            offset: t@.offset,
        }),
{
    let zone = chrono::FixedOffset::east_opt(t.offset.local_minus_utc).unwrap();
    let base = chrono::DateTime::from_timestamp(t.secs, t.nanos).unwrap().with_timezone(&zone);
    let clock = chrono::NaiveTime::from_hms_opt(time.hour, time.minute, time.second).unwrap();
    let local = base.date_naive().and_time(clock);
    let moved = chrono::DateTime::<chrono::FixedOffset>::from_local(local, zone);
    DateTime { secs: moved.timestamp(), nanos: moved.timestamp_subsec_nanos(), offset: t.offset }
}

/// `year` has a twenty-ninth of February.
pub open spec fn is_leap(year: int) -> bool {
    year % 4 == 0 && (year % 100 != 0 || year % 400 == 0)
}

/// The number of days of a month of the Gregorian calendar.
pub open spec fn days_in_month(year: int, month: int) -> int {
    if month == 2 {
        if is_leap(year) {
            29
        } else {
            28
        }
    } else if month == 4 || month == 6 || month == 9 || month == 11 {
        30
    } else {
        31
    }
}

/// There is such a date in the Gregorian calendar.
pub open spec fn is_date(year: int, month: int, day: int) -> bool {
    1 <= month <= 12 && 1 <= day <= days_in_month(year, month)
}

/// The days of the year before the first of the month.
pub open spec fn days_before_month(year: int, month: int) -> int
    decreases month,
{
    if month <= 1 {
        0
    } else {
        days_before_month(year, month - 1) + days_in_month(year, month - 1)
    }
}

/// The days from the first day of year 0 to the first day of `year`.
pub open spec fn days_before_year(year: int) -> int {
    365 * year + (year + 3) / 4 - (year + 99) / 100 + (year + 399) / 400
}

/// The date as a count of days since 1970-01-01.
pub open spec fn day_number(year: int, month: int, day: int) -> int {
    days_before_year(year) + days_before_month(year, month) + day - 1 - 719528
}

/// `n`, which is below a hundred, in two digits.
pub open spec fn two_digits(n: int) -> Seq<char> {
    seq![digit_char((n / 10) as nat), digit_char((n % 10) as nat)]
}

/// `n`, which is below ten thousand, in four digits.
pub open spec fn four_digits(n: int) -> Seq<char> {
    two_digits(n / 100) + two_digits(n % 100)
}

/// The date and the time of day as they stand in the name of a log file, down
/// to the unit of `age`: `2025-04-01-19-55`, `2025-04-01-19` or `2025-04-01`.
pub open spec fn stamp(
    age: RotationAge,
    year: int,
    month: int,
    day: int,
    hour: int,
    minute: int,
) -> Seq<char> {
    let date = four_digits(year) + seq!['-'] + two_digits(month) + seq!['-'] + two_digits(day);
    match age {
        RotationAge::Daily => date,
        RotationAge::Hourly => date + seq!['-'] + two_digits(hour),
        RotationAge::Minutely => date + seq!['-'] + two_digits(hour) + seq!['-'] + two_digits(
            minute,
        ),
    }
}

/// `text` is the stamp of the instant `t`, whose local year has four digits.
#[verifier::opaque]
pub open spec fn is_stamp(text: Seq<char>, age: RotationAge, t: TimeView) -> bool {
    exists|year: int, month: int, day: int|
        {
            &&& 0 <= year <= 9999
            &&& is_date(year, month, day)
            &&& #[trigger] day_number(year, month, day) == t.day()
            &&& text == stamp(age, year, month, day, t.hour(), t.minute())
        }
}

/// The instant lies in the local years 0 to 9999.
pub open spec fn has_four_digit_year(t: TimeView) -> bool {
    day_number(0, 1, 1) <= t.day() < day_number(10000, 1, 1)
}

/// `s` holds no percent sign.
pub open spec fn no_percent(s: Seq<char>) -> bool {
    forall|i: int| 0 <= i < s.len() ==> s[i] != '%'
}

/// Where the format is a text without percent signs and then the time pattern of
/// `age`, it can be rendered. For an instant whose local year has four digits the
/// rendered text is that text and then the stamp of the instant.
pub open spec fn renders_stamp(
    format: Seq<char>,
    age: RotationAge,
    t: TimeView,
    rendered: Option<Seq<char>>,
) -> bool {
    let pattern = match age {
        RotationAge::Minutely => "%Y-%m-%d-%H-%M"@,
        RotationAge::Hourly => "%Y-%m-%d-%H"@,
        RotationAge::Daily => "%Y-%m-%d"@,
    };
    let cut = format.len() - pattern.len();
    (cut >= 0 && no_percent(format.take(cut)) && format.skip(cut) == pattern) ==> {
        &&& rendered is Some
        &&& has_four_digit_year(t) ==> {
            &&& rendered->0.len() >= cut
            &&& rendered->0.take(cut) == format.take(cut)
            &&& is_stamp(rendered->0.skip(cut), age, t)
        }
    }
}

/// What chrono's `DateTime::format` writes for the strftime `format` and the
/// instant, or `None` where the format holds a specifier that it does not know.
pub uninterp spec fn strftime(format: Seq<char>, secs: int, nanos: int, offset: int) -> Option<
    Seq<char>,
>;

/// The instant in the strftime `format`, or `None` where the format is no good.
///
/// Calls `format` of `chrono::DateTime` and writes what it returns to a string.
/// Trusted is that the text depends on the format and the instant alone; that a
/// format is good for every instant or for none; and that characters other than
/// percent signs are copied while `%Y`, `%m`, `%d`, `%H` and `%M` give the local
/// date and time of day with leading zeros, none of which fails.
#[verifier::external_body]
pub(crate) fn format_time(t: &DateTime, format: &str) -> (r: Option<String>)
    ensures
        text_of(r) == strftime(format@, t@.secs, t@.nanos, t@.offset),
        forall|u: TimeView|
            u.valid() ==> (r is Some) == #[trigger] strftime(
                format@,
                u.secs,
                u.nanos,
                u.offset,
            ) is Some,
        renders_stamp(format@, RotationAge::Minutely, t@, text_of(r)),
        renders_stamp(format@, RotationAge::Hourly, t@, text_of(r)),
        renders_stamp(format@, RotationAge::Daily, t@, text_of(r)),
{
    let zone = chrono::FixedOffset::east_opt(t.offset.local_minus_utc).unwrap();
    let time = chrono::DateTime::from_timestamp(t.secs, t.nanos).unwrap().with_timezone(&zone);
    let mut text = String::new();
    match write!(text, "{}", time.format(format)) {
        Ok(()) => Some(text),
        Err(_) => None,
    }
}

/// An instant has reached another if and only if no fewer nanoseconds have passed. So
/// of two instants one has reached the other, and each has reached the other only
/// where they are one.
pub proof fn law_reached(t: TimeView, u: TimeView)
    requires
        t.valid(),
        u.valid(),
    ensures
        t.reached(u) <==> t.secs * 1000000000 + t.nanos >= u.secs * 1000000000 + u.nanos,
        t.reached(u) || u.reached(t),
        t.reached(u) && u.reached(t) <==> t.secs == u.secs && t.nanos == u.nanos,
{
}

/// The next boundary is a full minute, a full hour or a midnight of local time, less
/// than a minute, an hour or a day after the whole second in which the instant lies, or
/// just as much, and no such time lies between the two.
pub proof fn law_next_boundary_on_the_clock(t: TimeView, age: RotationAge)
    requires
        t.valid(),
    ensures
        ({
            let next = t.next_boundary(age);
            let period = match age {
                RotationAge::Minutely => 60int,
                RotationAge::Hourly => 3600int,
                RotationAge::Daily => 86400int,
            };
            &&& next.offset == t.offset && next.nanos == 0
            &&& (next.secs + next.offset) % period == 0
            &&& t.secs < next.secs <= t.secs + period
            &&& age is Daily ==> next.hour() == 0 && next.minute() == 0
            &&& age is Hourly ==> next.minute() == 0
        }),
{
    lemma_first_multiple(t.local(), age.period());
    lemma_next_boundary(t, age);
}

/// The next boundary in plain arithmetic, for each of the three periods.
pub proof fn lemma_next_boundary(t: TimeView, age: RotationAge)
    ensures
        age is Minutely ==> t.next_boundary(age).secs == (t.local() / 60 + 1) * 60 - t.offset,
        age is Hourly ==> t.next_boundary(age).secs == (t.local() / 3600 + 1) * 3600 - t.offset,
        age is Daily ==> t.next_boundary(age).secs == (t.local() / 86400 + 1) * 86400 - t.offset,
{
}

/// The first multiple of `p` above `x`.
proof fn lemma_first_multiple(x: int, p: int)
    requires
        p > 0,
    ensures
        x < (x / p + 1) * p <= x + p,
        (x / p + 1) * p % p == 0,
        (x / p + 1) * p / p == x / p + 1,
{
    let q = x / p;
    lemma_fundamental_div_mod(x, p);
    lemma_mod_multiples_basic(q + 1, p);
    lemma_div_multiples_vanish(q + 1, p);
    assert((q + 1) * p == p * q + p && p * (q + 1) == (q + 1) * p) by (nonlinear_arith);
}

/// No multiple of `p` lies between `x` and the first above it.
proof fn lemma_no_multiple_before(x: int, p: int, v: int)
    requires
        p > 0,
        v % p == 0,
        v > x,
    ensures
        v >= (x / p + 1) * p,
{
    let q = x / p;
    let n = v / p;
    lemma_fundamental_div_mod(x, p);
    lemma_fundamental_div_mod(v, p);
    assert(n >= q + 1) by (nonlinear_arith)
        requires
            p > 0,
            p * n > p * q,
    ;
    assert(p * n >= (q + 1) * p) by (nonlinear_arith)
        requires
            p > 0,
            n >= q + 1,
    ;
}

/// The next boundary is the first beginning of a local period after the instant,
/// at most one period away.
#[verifier::spinoff_prover]
pub proof fn law_next_boundary_is_first(t: TimeView, age: RotationAge)
    requires
        t.valid(),
    ensures
        !t.reached(t.next_boundary(age)),
        t.next_boundary(age).secs - t.secs <= age.period(),
        t.next_boundary(age).local() % age.period() == 0,
        t.next_boundary(age).period_of(age) == t.period_of(age) + 1,
        forall|u: TimeView|
            (u.offset == t.offset && u.nanos == 0 && #[trigger] u.local() % age.period() == 0
                && !t.reached(u)) ==> u.reached(t.next_boundary(age)),
{
    let p = age.period();
    let next = t.next_boundary(age);
    lemma_first_multiple(t.local(), p);
    assert(next.local() == (t.local() / p + 1) * p);
    assert forall|u: TimeView|
        (u.offset == t.offset && u.nanos == 0 && #[trigger] u.local() % p == 0 && !t.reached(
            u,
        )) implies u.reached(next) by {
        lemma_no_multiple_before(t.local(), p, u.local());
    }
}

/// Months of one year come one after the other.
proof fn lemma_months(year: int, m: int, n: int)
    requires
        1 <= m < n,
    ensures
        days_before_month(year, m) + days_in_month(year, m) <= days_before_month(year, n),
    decreases n,
{
    reveal_with_fuel(days_before_month, 2);
    if m < n - 1 {
        lemma_months(year, m, n - 1);
    }
}

/// The days of the twelve months together.
proof fn lemma_days_of_months(year: int)
    ensures
        days_before_month(year, 13) == 337 + days_in_month(year, 2),
{
    assert(days_before_month(year, 1) == 0);
    assert(days_before_month(year, 2) == 31);
    assert(days_before_month(year, 3) == 31 + days_in_month(year, 2));
    assert(days_before_month(year, 4) == 62 + days_in_month(year, 2));
    assert(days_before_month(year, 5) == 92 + days_in_month(year, 2));
    assert(days_before_month(year, 6) == 123 + days_in_month(year, 2));
    assert(days_before_month(year, 7) == 153 + days_in_month(year, 2));
    assert(days_before_month(year, 8) == 184 + days_in_month(year, 2));
    assert(days_before_month(year, 9) == 215 + days_in_month(year, 2));
    assert(days_before_month(year, 10) == 245 + days_in_month(year, 2));
    assert(days_before_month(year, 11) == 276 + days_in_month(year, 2));
    assert(days_before_month(year, 12) == 306 + days_in_month(year, 2));
}

/// How many of the years from `year` on, and before the next, are multiples of `d`:
/// the multiples below a year are counted by a quotient that is rounded up.
proof fn lemma_multiples_counted(year: int, d: int)
    requires
        d > 0,
    ensures
        (year + 1 + (d - 1)) / d - (year + (d - 1)) / d == (if year % d == 0 {
            1int
        } else {
            0int
        }),
{
    let q = year / d;
    let r = year % d;
    lemma_fundamental_div_mod(year, d);
    assert(d * q == q * d && (q + 1) * d == q * d + d) by (nonlinear_arith);
    lemma_fundamental_div_mod_converse(year + 1 + (d - 1), d, q + 1, r);
    if r == 0 {
        lemma_fundamental_div_mod_converse(year + (d - 1), d, q, d - 1);
    } else {
        lemma_fundamental_div_mod_converse(year + (d - 1), d, q + 1, r - 1);
    }
}

/// The days of a year are those of its months.
proof fn lemma_days_of_year(year: int)
    ensures
        days_before_month(year, 13) == days_before_year(year + 1) - days_before_year(year),
{
    lemma_days_of_months(year);
    lemma_multiples_counted(year, 4);
    lemma_multiples_counted(year, 100);
    lemma_multiples_counted(year, 400);
    lemma_mod_mod(year, 4, 25);
    lemma_mod_mod(year, 100, 4);
}

/// Every date of a year lies before the next year.
proof fn lemma_within_year(year: int, month: int, day: int)
    requires
        is_date(year, month, day),
    ensures
        0 <= days_before_month(year, month),
        days_before_month(year, month) + day <= days_before_year(year + 1) - days_before_year(year),
{
    lemma_days_of_year(year);
    lemma_months(year, month, 13);
    if month > 1 {
        lemma_months(year, 1, month);
    }
}

/// A later date has the larger day number.
pub proof fn lemma_date_order(y1: int, m1: int, d1: int, y2: int, m2: int, d2: int)
    requires
        is_date(y1, m1, d1),
        is_date(y2, m2, d2),
        y1 < y2 || (y1 == y2 && (m1 < m2 || (m1 == m2 && d1 < d2))),
    ensures
        day_number(y1, m1, d1) < day_number(y2, m2, d2),
{
    if y1 < y2 {
        lemma_within_year(y1, m1, d1);
        lemma_within_year(y2, m2, d2);
        assert(days_before_year(y1 + 1) <= days_before_year(y2));
    } else if m1 < m2 {
        lemma_months(y1, m1, m2);
    }
}

/// Two digits sort as the numbers that they spell.
proof fn lemma_two_digits_order(m: int, n: int)
    requires
        0 <= m < n < 100,
    ensures
        sorts_before(two_digits(m), two_digits(n)),
{
    reveal_with_fuel(sorts_before, 3);
    let a = two_digits(m);
    let b = two_digits(n);
    assert(a.skip(1)[0] == a[1]);
    assert(b.skip(1)[0] == b[1]);
}

/// Four digits sort as the numbers that they spell.
proof fn lemma_four_digits_order(m: int, n: int)
    requires
        0 <= m < n < 10000,
    ensures
        sorts_before(four_digits(m), four_digits(n)),
{
    if m / 100 < n / 100 {
        lemma_two_digits_order(m / 100, n / 100);
        lemma_order_head(
            two_digits(m / 100),
            two_digits(n / 100),
            two_digits(m % 100),
            two_digits(n % 100),
        );
    } else {
        lemma_two_digits_order(m % 100, n % 100);
        lemma_order_prefix(two_digits(m / 100), two_digits(m % 100), two_digits(n % 100));
    }
}

/// The stamp of an instant in four parts, so that two stamps can be held against
/// each other part by part.
proof fn lemma_stamp_parts(
    age: RotationAge,
    year: int,
    month: int,
    day: int,
    hour: int,
    minute: int,
    tail: Seq<char>,
)
    ensures
        ({
            let clock = match age {
                RotationAge::Daily => Seq::<char>::empty(),
                RotationAge::Hourly => seq!['-'] + two_digits(hour),
                RotationAge::Minutely => seq!['-'] + two_digits(hour) + (seq!['-'] + two_digits(
                    minute,
                )),
            };
            stamp(age, year, month, day, hour, minute) + tail == four_digits(year) + (seq!['-'] + (
            two_digits(month) + (seq!['-'] + (two_digits(day) + (clock + tail)))))
        }),
{
    let clock = match age {
        RotationAge::Daily => Seq::<char>::empty(),
        RotationAge::Hourly => seq!['-'] + two_digits(hour),
        RotationAge::Minutely => seq!['-'] + two_digits(hour) + (seq!['-'] + two_digits(minute)),
    };
    assert(stamp(age, year, month, day, hour, minute) + tail =~= four_digits(year) + (seq!['-'] + (
    two_digits(month) + (seq!['-'] + (two_digits(day) + (clock + tail))))));
}

/// Day, hour and minute follow from the period in which an instant lies, as far
/// as the unit of the period tells them.
pub proof fn lemma_period_fields(t: TimeView, age: RotationAge)
    ensures
        0 <= t.hour() < 24,
        0 <= t.minute() < 60,
        age is Daily ==> t.period_of(age) == t.day(),
        age is Hourly ==> t.period_of(age) == t.day() * 24 + t.hour(),
        age is Minutely ==> t.period_of(age) == t.day() * 1440 + t.hour() * 60 + t.minute(),
{
    let l = t.local();
    assert(l / 3600 == (l / 86400) * 24 + l % 86400 / 3600);
    assert(l / 60 == (l / 3600) * 60 + l % 3600 / 60);
}

/// One period on, the beginning of the local period is the next boundary.
pub proof fn lemma_period_on(t: TimeView, age: RotationAge)
    requires
        t.valid(),
        t.can_advance(age),
    ensures
        ({
            let d = TimeView { secs: t.secs + age.period(), ..t };
            let begun = d.day() * 86400 + (match age {
                RotationAge::Minutely => d.hour() * 3600 + d.minute() * 60,
                RotationAge::Hourly => d.hour() * 3600,
                RotationAge::Daily => 0,
            }) - t.offset;
            &&& 0 <= d.hour() < 24
            &&& 0 <= d.minute() < 60
            &&& begun == t.next_boundary(age).secs
            &&& MIN_SECS <= begun <= MAX_SECS
        }),
{
    let d = TimeView { secs: t.secs + age.period(), ..t };
    lemma_period_fields(d, age);
    lemma_next_boundary(t, age);
    match age {
        RotationAge::Minutely => {
            assert((t.local() + 60) / 60 == t.local() / 60 + 1);
        },
        RotationAge::Hourly => {
            assert((t.local() + 3600) / 3600 == t.local() / 3600 + 1);
        },
        RotationAge::Daily => {
            assert((t.local() + 86400) / 86400 == t.local() / 86400 + 1);
        },
    }
}

/// Stamps that are written out sort as the periods of their instants.
proof fn lemma_stamps_order(
    age: RotationAge,
    t: TimeView,
    u: TimeView,
    y1: int,
    m1: int,
    d1: int,
    y2: int,
    m2: int,
    d2: int,
    x: Seq<char>,
    y: Seq<char>,
)
    requires
        0 <= y1 <= 9999,
        0 <= y2 <= 9999,
        is_date(y1, m1, d1),
        is_date(y2, m2, d2),
        day_number(y1, m1, d1) == t.day(),
        day_number(y2, m2, d2) == u.day(),
        t.period_of(age) < u.period_of(age),
    ensures
        sorts_before(
            stamp(age, y1, m1, d1, t.hour(), t.minute()) + x,
            stamp(age, y2, m2, d2, u.hour(), u.minute()) + y,
        ),
{
    lemma_period_fields(t, age);
    lemma_period_fields(u, age);
    lemma_stamp_parts(age, y1, m1, d1, t.hour(), t.minute(), x);
    lemma_stamp_parts(age, y2, m2, d2, u.hour(), u.minute(), y);
    let dash = seq!['-'];
    let (h1, h2) = (two_digits(t.hour()), two_digits(u.hour()));
    let (n1, n2) = (dash + two_digits(t.minute()), dash + two_digits(u.minute()));
    let (c1, c2) = match age {
        RotationAge::Daily => (Seq::<char>::empty(), Seq::<char>::empty()),
        RotationAge::Hourly => (dash + h1, dash + h2),
        RotationAge::Minutely => (dash + h1 + n1, dash + h2 + n2),
    };
    let (r1, r2) = (two_digits(d1) + (c1 + x), two_digits(d2) + (c2 + y));
    let (q1, q2) = (two_digits(m1) + (dash + r1), two_digits(m2) + (dash + r2));
    assert(t.day() <= u.day());
    if y1 > y2 || (y1 == y2 && (m1 > m2 || (m1 == m2 && d1 > d2))) {
        lemma_date_order(y2, m2, d2, y1, m1, d1);
    }
    if y1 < y2 {
        lemma_four_digits_order(y1, y2);
        lemma_order_head(four_digits(y1), four_digits(y2), dash + q1, dash + q2);
    } else {
        lemma_order_prefix(four_digits(y1), dash + q1, dash + q2);
        lemma_order_prefix(dash, q1, q2);
        if m1 < m2 {
            lemma_two_digits_order(m1, m2);
            lemma_order_head(two_digits(m1), two_digits(m2), dash + r1, dash + r2);
        } else {
            lemma_order_prefix(two_digits(m1), dash + r1, dash + r2);
            lemma_order_prefix(dash, r1, r2);
            if d1 < d2 {
                lemma_two_digits_order(d1, d2);
                lemma_order_head(two_digits(d1), two_digits(d2), c1 + x, c2 + y);
            } else {
                lemma_order_prefix(two_digits(d1), c1 + x, c2 + y);
                lemma_clock_order(age, t, u, x, y);
            }
        }
    }
}

/// Stamps sort as the periods of their instants, whatever follows them.
pub proof fn law_stamps_sort_by_time(
    age: RotationAge,
    t: TimeView,
    u: TimeView,
    a: Seq<char>,
    b: Seq<char>,
    x: Seq<char>,
    y: Seq<char>,
)
    requires
        is_stamp(a, age, t),
        is_stamp(b, age, u),
        t.period_of(age) < u.period_of(age),
    ensures
        sorts_before(a + x, b + y),
{
    let (y1, m1, d1) = lemma_stamp_date(a, age, t);
    let (y2, m2, d2) = lemma_stamp_date(b, age, u);
    lemma_stamps_order(age, t, u, y1, m1, d1, y2, m2, d2, x, y);
}

/// The date that a stamp spells.
proof fn lemma_stamp_date(text: Seq<char>, age: RotationAge, t: TimeView) -> (date: (int, int, int))
    requires
        is_stamp(text, age, t),
    ensures
        0 <= date.0 <= 9999,
        is_date(date.0, date.1, date.2),
        day_number(date.0, date.1, date.2) == t.day(),
        text == stamp(age, date.0, date.1, date.2, t.hour(), t.minute()),
{
    reveal(is_stamp);
    choose|year: int, month: int, day: int|
        {
            &&& 0 <= year <= 9999
            &&& is_date(year, month, day)
            &&& #[trigger] day_number(year, month, day) == t.day()
            &&& text == stamp(age, year, month, day, t.hour(), t.minute())
        }
}

/// The clock parts of two stamps of one day sort as the periods of the instants.
proof fn lemma_clock_order(
    age: RotationAge,
    t: TimeView,
    u: TimeView,
    x: Seq<char>,
    y: Seq<char>,
)
    requires
        t.day() == u.day(),
        t.period_of(age) < u.period_of(age),
    ensures
        ({
            let dash = seq!['-'];
            let (h1, h2) = (two_digits(t.hour()), two_digits(u.hour()));
            let (n1, n2) = (dash + two_digits(t.minute()), dash + two_digits(u.minute()));
            let (c1, c2) = match age {
                RotationAge::Daily => (Seq::<char>::empty(), Seq::<char>::empty()),
                RotationAge::Hourly => (dash + h1, dash + h2),
                RotationAge::Minutely => (dash + h1 + n1, dash + h2 + n2),
            };
            sorts_before(c1 + x, c2 + y)
        }),
{
    lemma_period_fields(t, age);
    lemma_period_fields(u, age);
    let dash = seq!['-'];
    let (h1, h2) = (two_digits(t.hour()), two_digits(u.hour()));
    let (w1, w2) = match age {
        RotationAge::Minutely => (
            dash + (two_digits(t.minute()) + x),
            dash + (two_digits(u.minute()) + y),
        ),
        _ => (x, y),
    };
    if !(age is Daily) {
        if t.hour() < u.hour() {
            lemma_two_digits_order(t.hour(), u.hour());
            lemma_order_head(h1, h2, w1, w2);
        } else {
            lemma_order_prefix(h1, w1, w2);
            lemma_order_prefix(
                dash,
                two_digits(t.minute()) + x,
                two_digits(u.minute()) + y,
            );
            lemma_two_digits_order(t.minute(), u.minute());
            lemma_order_head(two_digits(t.minute()), two_digits(u.minute()), x, y);
        }
        lemma_order_prefix(dash, h1 + w1, h2 + w2);
        match age {
            RotationAge::Hourly => {
                assert(dash + h1 + x =~= dash + (h1 + w1));
                assert(dash + h2 + y =~= dash + (h2 + w2));
            },
            _ => {
                assert(dash + h1 + (dash + two_digits(t.minute())) + x =~= dash + (h1 + w1));
                assert(dash + h2 + (dash + two_digits(u.minute())) + y =~= dash + (h2 + w2));
            },
        }
    }
}

/// Instants of one period have one stamp.
pub proof fn law_one_stamp_per_period(
    age: RotationAge,
    t: TimeView,
    u: TimeView,
    a: Seq<char>,
    b: Seq<char>,
)
    requires
        is_stamp(a, age, t),
        is_stamp(b, age, u),
        t.period_of(age) == u.period_of(age),
    ensures
        a == b,
{
    lemma_period_fields(t, age);
    lemma_period_fields(u, age);
    let (y1, m1, d1) = lemma_stamp_date(a, age, t);
    let (y2, m2, d2) = lemma_stamp_date(b, age, u);
    assert(t.day() == u.day());
    if y1 < y2 || (y1 == y2 && (m1 < m2 || (m1 == m2 && d1 < d2))) {
        lemma_date_order(y1, m1, d1, y2, m2, d2);
    }
    if y2 < y1 || (y1 == y2 && (m2 < m1 || (m1 == m2 && d2 < d1))) {
        lemma_date_order(y2, m2, d2, y1, m1, d1);
    }
}

} // verus!
