//! Points in time, counted from the Unix epoch, and what the calendar says of them.
//!
//! Reading, rendering and shifting times is chrono's work. The functions marked
//! `external_body` are the only places where it is called; their contracts are taken on trust.

use crate::text;
use chrono::{DateTime, Datelike, NaiveDateTime, TimeDelta, Utc};
use std::cmp::Ordering;
use std::str::FromStr;
use vstd::prelude::*;

verus! {

/// The first second that chrono can represent, the start of the year -262143.
pub const MIN_SECS: i64 = -8_334_601_228_800;

/// The last second that chrono can represent, the end of the year 262142.
pub const MAX_SECS: i64 = 8_210_266_876_799;

/// The first second of the year 2070, where two-digit years start over at 1970.
pub const TWO_DIGIT_YEARS_END: i64 = 3_155_760_000;

/// How times are written in file names and cache keys.
pub const STAMP_FORMAT: &'static str = "%y%m%dT%H%M%S%.3f";

/// How the two ends of a requested time range are written.
pub const RANGE_FORMAT: &'static str = "%y%m%dT%H%M%S";

/// A point in time: seconds since the start of 1970 in UTC, and nanoseconds.
///
/// A leap second is held in the second before it, with a billion or more nanoseconds.
#[derive(Clone, Copy, PartialEq, Eq, Structural, Debug)]
pub struct Timestamp {
    pub secs: i64,
    pub nanos: u32,
}

impl Timestamp {
    /// Whether the time can be represented: leap seconds stand at the end of a minute only.
    pub open spec fn wf(self) -> bool {
        &&& MIN_SECS <= self.secs <= MAX_SECS
        &&& self.nanos < 2_000_000_000
        &&& self.is_leap() ==> (self.secs as int) % 60 == 59
    }

    /// Whether the time lies in a leap second.
    pub open spec fn is_leap(self) -> bool {
        self.nanos >= 1_000_000_000
    }

    /// Nanoseconds since the epoch.
    pub open spec fn total(self) -> int {
        self.secs * 1_000_000_000 + self.nanos
    }

    /// The day, counted from the first of January 1970.
    pub open spec fn day(self) -> int {
        (self.secs as int) / 86_400
    }

    /// The second of the day.
    pub open spec fn second_of_day(self) -> int {
        (self.secs as int) % 86_400
    }

    /// Whether this time is not after the other.
    pub open spec fn le(self, other: Timestamp) -> bool {
        self.secs < other.secs || (self.secs == other.secs && self.nanos <= other.nanos)
    }

    /// Whether this time is before the other.
    pub open spec fn lt(self, other: Timestamp) -> bool {
        self.secs < other.secs || (self.secs == other.secs && self.nanos < other.nanos)
    }

    /// The later of two times; this one when they are the same.
    pub open spec fn later(self, other: Timestamp) -> Timestamp {
        if self.lt(other) {
            other
        } else {
            self
        }
    }

    /// The earlier of two times.
    pub open spec fn earlier(self, other: Timestamp) -> Timestamp {
        if other.lt(self) {
            other
        } else {
            self
        }
    }

    /// The time cut to whole milliseconds.
    pub open spec fn whole_millis(self) -> Timestamp {
        Timestamp { secs: self.secs, nanos: (self.nanos - self.nanos % 1_000_000) as u32 }
    }

    /// Whether `self` is not after `other`.
    pub fn not_after(&self, other: &Timestamp) -> (r: bool)
        ensures
            r == self.le(*other),
            r <==> self.secs < other.secs || (self.secs == other.secs && self.nanos <= other.nanos),
    {
        self.secs < other.secs || (self.secs == other.secs && self.nanos <= other.nanos)
    }

    /// Whether `self` is before `other`.
    pub fn is_before(&self, other: &Timestamp) -> (r: bool)
        ensures
            r == self.lt(*other),
            r <==> self.secs < other.secs || (self.secs == other.secs && self.nanos < other.nanos),
    {
        self.secs < other.secs || (self.secs == other.secs && self.nanos < other.nanos)
    }

    /// The later of two times.
    pub fn max_of(&self, other: &Timestamp) -> (r: Timestamp)
        ensures
            r == self.later(*other),
            r == *self || r == *other,
            self.le(r) && other.le(r),
    {
        if self.is_before(other) {
            *other
        } else {
            *self
        }
    }

    /// The earlier of two times.
    pub fn min_of(&self, other: &Timestamp) -> (r: Timestamp)
        ensures
            r == self.earlier(*other),
            r == *self || r == *other,
            r.le(*self) && r.le(*other),
    {
        if other.is_before(self) {
            *other
        } else {
            *self
        }
    }

    /// How two times stand to each other.
    pub fn chronological(&self, other: &Timestamp) -> (r: Ordering)
        ensures
            r == Ordering::Less <==> self.lt(*other),
            r == Ordering::Equal <==> *self == *other,
            r == Ordering::Greater <==> other.lt(*self),
    {
        if self.is_before(other) {
            Ordering::Less
        } else if other.is_before(self) {
            Ordering::Greater
        } else {
            Ordering::Equal
        }
    }

    /// Whether the time can be represented.
    pub fn is_valid(&self) -> (r: bool)
        ensures
            r == self.wf(),
            r <==> -8_334_601_228_800 <= self.secs <= 8_210_266_876_799 && self.nanos
                < 2_000_000_000 && (self.nanos >= 1_000_000_000 ==> self.secs as int % 60 == 59),
    {
        proof {
            lemma_since_start(self.secs as int);
        }
        MIN_SECS <= self.secs && self.secs <= MAX_SECS && self.nanos < 2_000_000_000 && (self.nanos
            < 1_000_000_000 || (self.secs - MIN_SECS) % 60 == 59)
    }

    /// The hour of the day.
    pub fn hour(&self) -> (h: u32)
        requires
            self.wf(),
        ensures
            h == self.second_of_day() / 3600,
            h == self.secs as int % 86_400 / 3600,
    {
        let since_start: i64 = self.secs - MIN_SECS;
        proof {
            lemma_since_start(self.secs as int);
        }
        ((since_start % 86_400) / 3600) as u32
    }
}

/// The first second that can be represented starts a minute and a day.
proof fn lemma_since_start(secs: int)
    ensures
        (secs - MIN_SECS) % 60 == secs % 60,
        (secs - MIN_SECS) % 86_400 == secs % 86_400,
{
    assert(-MIN_SECS == 60 * 138_910_020_480);
    assert(-MIN_SECS == 86_400 * 96_465_292);
    vstd::arithmetic::div_mod::lemma_mod_multiples_vanish(138_910_020_480, secs, 60);
    vstd::arithmetic::div_mod::lemma_mod_multiples_vanish(96_465_292, secs, 86_400);
}

/// Whether a year of the Gregorian calendar has a 29th of February.
pub open spec fn leap_year(y: int) -> bool {
    y % 4 == 0 && (y % 100 != 0 || y % 400 == 0)
}

/// The days of a common year before the first of a month.
pub open spec fn days_before_month(m: int) -> int {
    seq![0int, 31, 59, 90, 120, 151, 181, 212, 243, 273, 304, 334][m - 1]
}

/// The days of a month.
pub open spec fn days_in_month(y: int, m: int) -> int {
    if m == 2 && leap_year(y) {
        29
    } else {
        seq![31int, 28, 31, 30, 31, 30, 31, 31, 30, 31, 30, 31][m - 1]
    }
}

/// Whether year, month and day make a date.
pub open spec fn is_date(ymd: (int, int, int)) -> bool {
    1 <= ymd.1 <= 12 && 1 <= ymd.2 <= days_in_month(ymd.0, ymd.1)
}

/// The number of a date, counted from the first of January 1970, in the Gregorian calendar
/// extended to all years.
pub open spec fn day_number(ymd: (int, int, int)) -> int {
    let p = ymd.0 - 1;
    365 * p + p / 4 - p / 100 + p / 400 + days_before_month(ymd.1) + if ymd.1 > 2 && leap_year(
        ymd.0,
    ) {
        1int
    } else {
        0int
    } + ymd.2 - 1 - 719_162
}

/// Year, month and day of the day with a number.
pub open spec fn calendar_date(day: int) -> (int, int, int) {
    choose|ymd: (int, int, int)| is_date(ymd) && #[trigger] day_number(ymd) == day
}

/// Whether the years of two times are among a hundred years in a row.
pub open spec fn within_a_century(a: Timestamp, b: Timestamp) -> bool {
    -100 < calendar_date(a.day()).0 - calendar_date(b.day()).0 < 100
}

/// Date and time of day, to the second, as `RANGE_FORMAT` writes them.
pub open spec fn second_text(t: Timestamp) -> Seq<char> {
    let date = calendar_date(t.day());
    let s = t.second_of_day();
    text::padded((date.0 % 100) as nat, 2) + text::padded(date.1 as nat, 2) + text::padded(date.2 as nat, 2) + seq![
        'T',
    ] + text::padded((s / 3600) as nat, 2) + text::padded((s / 60 % 60) as nat, 2) + text::padded(
        (s % 60 + t.nanos as int / 1_000_000_000) as nat,
        2,
    )
}

/// Date and time of day, to the millisecond, as `STAMP_FORMAT` writes them.
pub open spec fn stamp_text(t: Timestamp) -> Seq<char> {
    second_text(t) + seq!['.'] + text::padded((t.nanos as int % 1_000_000_000 / 1_000_000) as nat, 3)
}

/// The year as RFC 3339 has it, with a sign where it does not have four digits.
pub open spec fn rfc3339_year(y: int) -> Seq<char> {
    if 0 <= y <= 9999 {
        text::padded(y as nat, 4)
    } else if y < 0 {
        seq!['-'] + text::padded((-y) as nat, 4)
    } else {
        seq!['+'] + text::padded(y as nat, 4)
    }
}

/// The fraction of a second with as few digits of three, six or nine as show all of it.
pub open spec fn rfc3339_fraction(n: int) -> Seq<char> {
    if n == 0 {
        Seq::<char>::empty()
    } else if n % 1_000_000 == 0 {
        seq!['.'] + text::padded((n / 1_000_000) as nat, 3)
    } else if n % 1_000 == 0 {
        seq!['.'] + text::padded((n / 1_000) as nat, 6)
    } else {
        seq!['.'] + text::padded(n as nat, 9)
    }
}

/// A time in UTC as RFC 3339 has it.
pub open spec fn rfc3339_text(t: Timestamp) -> Seq<char> {
    let date = calendar_date(t.day());
    let s = t.second_of_day();
    rfc3339_year(date.0) + seq!['-'] + text::padded(date.1 as nat, 2) + seq!['-'] + text::padded(
        date.2 as nat,
        2,
    ) + seq!['T'] + text::padded((s / 3600) as nat, 2) + seq![':'] + text::padded((s / 60 % 60) as nat, 2)
        + seq![':'] + text::padded((s % 60 + t.nanos as int / 1_000_000_000) as nat, 2)
        + rfc3339_fraction(t.nanos as int % 1_000_000_000) + seq!['+', '0', '0', ':', '0', '0']
}

/// Seconds and nanoseconds of a number of nanoseconds.
pub open spec fn instant(total: int) -> (int, int) {
    (total / 1_000_000_000, total % 1_000_000_000)
}

/// A time shifted by `d` nanoseconds. No leap second is ever crossed, but a time within one
/// stays there while the shift does not leave it.
pub open spec fn shifted_nanos(t: Timestamp, d: int) -> (int, int) {
    if t.is_leap() && t.nanos + d >= 2_000_000_000 {
        instant(t.total() + d - 1_000_000_000)
    } else if t.is_leap() && t.nanos + d >= 1_000_000_000 {
        (t.secs as int, t.nanos + d)
    } else {
        instant(t.total() + d)
    }
}

/// A time shifted by `ms` milliseconds, if that can be represented.
pub open spec fn shifted(t: Timestamp, ms: int) -> Option<Timestamp> {
    let r = shifted_nanos(t, ms * 1_000_000);
    if MIN_SECS <= r.0 <= MAX_SECS {
        Some(Timestamp { secs: r.0 as i64, nanos: r.1 as u32 })
    } else {
        None
    }
}

/// A time shifted by one nanosecond.
pub open spec fn next_nanosecond(t: Timestamp) -> Timestamp {
    let r = shifted_nanos(t, 1);
    Timestamp { secs: r.0 as i64, nanos: r.1 as u32 }
}

/// The nanoseconds from `then` to `now`. A leap second counts when the later time of day is
/// the one that is not in it.
pub open spec fn elapsed_nanos(now: Timestamp, then: Timestamp) -> int {
    now.total() - then.total() + if now.second_of_day() > then.second_of_day() && then.is_leap() {
        1_000_000_000int
    } else if now.second_of_day() < then.second_of_day() && now.is_leap() {
        -1_000_000_000int
    } else {
        0int
    }
}

/// What `chrono::NaiveDateTime::parse_from_str` reads from a text under a format: seconds
/// since the epoch and nanoseconds.
pub uninterp spec fn parsed_time(text: Seq<char>, format: Seq<char>) -> Option<(int, int)>;

/// What `<chrono::DateTime<Utc> as FromStr>::from_str` reads from a text: seconds since the
/// epoch and nanoseconds.
pub uninterp spec fn rfc3339_time(text: Seq<char>) -> Option<(int, int)>;

/// A time as seconds and nanoseconds.
pub open spec fn as_pair(t: Option<Timestamp>) -> Option<(int, int)> {
    match t {
        Some(t) => Some((t.secs as int, t.nanos as int)),
        None => None,
    }
}

/// The time that a pair of seconds and nanoseconds stands for.
pub open spec fn from_pair(p: Option<(int, int)>) -> Option<Timestamp> {
    match p {
        Some(p) => Some(Timestamp { secs: p.0 as i64, nanos: p.1 as u32 }),
        None => None,
    }
}

/// `chrono::DateTime::checked_add_signed` with a number of milliseconds: the shifted time,
/// or nothing where chrono cannot represent it.
#[verifier::external_body]
pub(crate) fn chrono_add(t: &Timestamp, ms: i64) -> (r: Option<Timestamp>)
    requires
        t.wf(),
    ensures
        r == shifted(*t, ms as int),
{
    let start = DateTime::<Utc>::from_timestamp(t.secs, t.nanos)?;
    let end = start.checked_add_signed(TimeDelta::try_milliseconds(ms)?)?;
    Some(Timestamp { secs: end.timestamp(), nanos: end.timestamp_subsec_nanos() })
}

/// `chrono::DateTime::signed_duration_since`: whole seconds and the nanoseconds left over,
/// both with the sign of the whole.
#[verifier::external_body]
pub(crate) fn chrono_since(now: &Timestamp, then: &Timestamp) -> (r: (i64, i32))
    requires
        now.wf(),
        then.wf(),
    ensures
        r.0 * 1_000_000_000 + r.1 == elapsed_nanos(*now, *then),
        -1_000_000_000 < r.1 < 1_000_000_000,
        r.0 > 0 ==> r.1 >= 0,
        r.0 < 0 ==> r.1 <= 0,
{
    let now = DateTime::<Utc>::from_timestamp(now.secs, now.nanos).unwrap();
    let then = DateTime::<Utc>::from_timestamp(then.secs, then.nanos).unwrap();
    let span = now.signed_duration_since(then);
    (span.num_seconds(), span.subsec_nanos())
}

/// `chrono::NaiveDateTime::parse_from_str`, its result taken as UTC. Beside the name of the
/// result it states that a time which was written with the same format is read back: to the
/// millisecond under `STAMP_FORMAT`, whole seconds under `RANGE_FORMAT`. Both have two-digit
/// years, which stand for 1970 to 2069.
#[verifier::external_body]
pub(crate) fn chrono_parse(text: &str, format: &str) -> (r: Option<Timestamp>)
    ensures
        as_pair(r) == parsed_time(text@, format@),
        r matches Some(t) ==> t.wf(),
        forall|t: Timestamp|
            format@ == STAMP_FORMAT@ && t.wf() && 0 <= t.secs < TWO_DIGIT_YEARS_END && text@
                == #[trigger] stamp_text(t) ==> r == Some(t.whole_millis()),
        forall|t: Timestamp|
            format@ == RANGE_FORMAT@ && t.wf() && 0 <= t.secs < TWO_DIGIT_YEARS_END && t.nanos
                % 1_000_000_000 == 0 && text@ == #[trigger] second_text(t) ==> r == Some(t),
{
    let read = NaiveDateTime::parse_from_str(text, format).ok()?.and_utc();
    Some(Timestamp { secs: read.timestamp(), nanos: read.timestamp_subsec_nanos() })
}

/// `chrono::DateTime::format` with the format of file names and cache keys.
#[verifier::external_body]
pub(crate) fn chrono_format(t: &Timestamp, format: &str) -> (r: String)
    requires
        t.wf(),
        format@ == STAMP_FORMAT@,
    ensures
        r@ == stamp_text(*t),
{
    DateTime::<Utc>::from_timestamp(t.secs, t.nanos).unwrap().format(format).to_string()
}

/// `chrono::DateTime::to_rfc3339`.
#[verifier::external_body]
pub(crate) fn chrono_to_rfc3339(t: &Timestamp) -> (r: String)
    requires
        t.wf(),
    ensures
        r@ == rfc3339_text(*t),
{
    DateTime::<Utc>::from_timestamp(t.secs, t.nanos).unwrap().to_rfc3339()
}

/// `<chrono::DateTime<Utc> as FromStr>::from_str`. Beside the name of the result it states
/// that what `to_rfc3339` writes of a time is read back whole.
#[verifier::external_body]
pub(crate) fn chrono_from_rfc3339(text: &str) -> (r: Option<Timestamp>)
    ensures
        as_pair(r) == rfc3339_time(text@),
        r matches Some(t) ==> t.wf(),
        forall|t: Timestamp|
            t.wf() && text@ == #[trigger] rfc3339_text(t) ==> r == Some(t),
{
    let read = DateTime::<Utc>::from_str(text).ok()?;
    Some(Timestamp { secs: read.timestamp(), nanos: read.timestamp_subsec_nanos() })
}

/// `chrono::Datelike::year`.
#[verifier::external_body]
pub(crate) fn chrono_year(t: &Timestamp) -> (r: i32)
    requires
        t.wf(),
    ensures
        r == calendar_date(t.day()).0,
{
    DateTime::<Utc>::from_timestamp(t.secs, t.nanos).unwrap().year()
}

/// `chrono::Datelike::month`.
#[verifier::external_body]
pub(crate) fn chrono_month(t: &Timestamp) -> (r: u32)
    requires
        t.wf(),
    ensures
        r == calendar_date(t.day()).1,
{
    DateTime::<Utc>::from_timestamp(t.secs, t.nanos).unwrap().month()
}

/// `chrono::Datelike::day`.
#[verifier::external_body]
pub(crate) fn chrono_day(t: &Timestamp) -> (r: u32)
    requires
        t.wf(),
    ensures
        r == calendar_date(t.day()).2,
{
    DateTime::<Utc>::from_timestamp(t.secs, t.nanos).unwrap().day()
}

/// The days before a year, from a fixed day on.
spec fn days_before_year(y: int) -> int {
    let p = y - 1;
    365 * p + p / 4 - p / 100 + p / 400
}

/// A year has 365 days, or 366 where it is a leap year.
proof fn lemma_year_length(y: int)
    ensures
        days_before_year(y + 1) == days_before_year(y) + 365 + if leap_year(y) {
            1int
        } else {
            0int
        },
{
}

/// Later years start later.
proof fn lemma_years_ascend(y: int, z: int)
    requires
        y < z,
    ensures
        days_before_year(y) + 365 + (if leap_year(y) {
            1int
        } else {
            0int
        }) <= days_before_year(z),
    decreases z - y,
{
    lemma_year_length(y);
    if y + 1 < z {
        lemma_years_ascend(y + 1, z);
    }
}

/// A date lies within its year.
proof fn lemma_date_in_year(ymd: (int, int, int))
    requires
        is_date(ymd),
    ensures
        days_before_year(ymd.0) <= day_number(ymd) + 719_162 < days_before_year(ymd.0) + 365
            + if leap_year(ymd.0) {
            1int
        } else {
            0int
        },
{
}

/// A day is one date only.
proof fn lemma_day_number_injective(a: (int, int, int), b: (int, int, int))
    requires
        is_date(a),
        is_date(b),
        day_number(a) == day_number(b),
    ensures
        a == b,
{
    lemma_date_in_year(a);
    lemma_date_in_year(b);
    if a.0 < b.0 {
        lemma_years_ascend(a.0, b.0);
    } else if b.0 < a.0 {
        lemma_years_ascend(b.0, a.0);
    }
}

/// A date is the date of its day, and of no other.
pub proof fn law_date_of_its_day(ymd: (int, int, int))
    requires
        is_date(ymd),
    ensures
        calendar_date(day_number(ymd)) == ymd,
{
    lemma_day_number_injective(calendar_date(day_number(ymd)), ymd);
}

/// The date of the next day.
spec fn next_date(ymd: (int, int, int)) -> (int, int, int) {
    if ymd.2 < days_in_month(ymd.0, ymd.1) {
        (ymd.0, ymd.1, ymd.2 + 1)
    } else if ymd.1 < 12 {
        (ymd.0, ymd.1 + 1, 1)
    } else {
        (ymd.0 + 1, 1, 1)
    }
}

/// The date of the day before.
spec fn previous_date(ymd: (int, int, int)) -> (int, int, int) {
    if ymd.2 > 1 {
        (ymd.0, ymd.1, ymd.2 - 1)
    } else if ymd.1 > 1 {
        (ymd.0, ymd.1 - 1, days_in_month(ymd.0, ymd.1 - 1))
    } else {
        (ymd.0 - 1, 12, 31)
    }
}

/// Every day has a date.
pub proof fn lemma_every_day_has_a_date(day: int)
    ensures
        is_date(calendar_date(day)),
        day_number(calendar_date(day)) == day,
    decreases
            if day < 0 {
                -day
            } else {
                day
            },
{
    if day == 0 {
        let start = (1970int, 1int, 1int);
        assert(is_date(start) && day_number(start) == 0);
    } else if day > 0 {
        lemma_every_day_has_a_date(day - 1);
        let before = calendar_date(day - 1);
        lemma_year_length(before.0);
        assert(is_date(next_date(before)) && day_number(next_date(before)) == day);
    } else {
        lemma_every_day_has_a_date(day + 1);
        let after = calendar_date(day + 1);
        lemma_year_length(after.0 - 1);
        assert(is_date(previous_date(after)) && day_number(previous_date(after)) == day);
    }
}

/// A shifted time can be represented.
pub proof fn lemma_shifted_wf(t: Timestamp, ms: int)
    requires
        t.wf(),
        shifted(t, ms) is Some,
    ensures
        shifted(t, ms)->0.wf(),
{
}

/// Time that is added makes a time later, time that is taken away makes it earlier.
pub proof fn lemma_shifted_order(t: Timestamp, ms: int)
    requires
        t.wf(),
        shifted(t, ms) is Some,
    ensures
        ms >= 0 ==> t.le(shifted(t, ms)->0),
        ms > 0 ==> t.lt(shifted(t, ms)->0),
        ms <= -1000 ==> shifted(t, ms)->0.lt(t),
{
}

/// Written times consist of digits, `T` and `.` alone.
pub proof fn lemma_stamp_lacks(t: Timestamp, c: char)
    requires
        !text::is_digit(c),
        c != 'T',
        c != '.',
    ensures
        text::lacks(second_text(t), c),
        text::lacks(stamp_text(t), c),
{
    let date = calendar_date(t.day());
    let s = t.second_of_day();
    let fields = seq![
        text::padded((date.0 % 100) as nat, 2),
        text::padded(date.1 as nat, 2),
        text::padded(date.2 as nat, 2),
        text::padded((s / 3600) as nat, 2),
        text::padded((s / 60 % 60) as nat, 2),
        text::padded((s % 60 + t.nanos as int / 1_000_000_000) as nat, 2),
        text::padded((t.nanos as int % 1_000_000_000 / 1_000_000) as nat, 3),
    ];
    text::lemma_padded((date.0 % 100) as nat, 2);
    text::lemma_padded(date.1 as nat, 2);
    text::lemma_padded(date.2 as nat, 2);
    text::lemma_padded((s / 3600) as nat, 2);
    text::lemma_padded((s / 60 % 60) as nat, 2);
    text::lemma_padded((s % 60 + t.nanos as int / 1_000_000_000) as nat, 2);
    text::lemma_padded((t.nanos as int % 1_000_000_000 / 1_000_000) as nat, 3);
    assert forall|k: int| 0 <= k < 7 implies text::lacks(#[trigger] fields[k], c) by {
        text::lemma_digits_lack(fields[k], c);
    }
    let a = fields[0] + fields[1];
    text::lemma_lacks_concat(fields[0], fields[1], c);
    let b = a + fields[2];
    text::lemma_lacks_concat(a, fields[2], c);
    let d = b + seq!['T'];
    text::lemma_lacks_concat(b, seq!['T'], c);
    let e = d + fields[3];
    text::lemma_lacks_concat(d, fields[3], c);
    let f = e + fields[4];
    text::lemma_lacks_concat(e, fields[4], c);
    let g = f + fields[5];
    text::lemma_lacks_concat(f, fields[5], c);
    let h = g + seq!['.'];
    text::lemma_lacks_concat(g, seq!['.'], c);
    text::lemma_lacks_concat(h, fields[6], c);
}

/// The numbers that a time is written with: year in its century, month, day, hour, minute,
/// second and millisecond.
spec fn stamp_fields(t: Timestamp) -> Seq<nat> {
    let date = calendar_date(t.day());
    let s = t.second_of_day();
    seq![
        (date.0 % 100) as nat,
        date.1 as nat,
        date.2 as nat,
        (s / 3600) as nat,
        (s / 60 % 60) as nat,
        (s % 60 + t.nanos as int / 1_000_000_000) as nat,
        (t.nanos as int % 1_000_000_000 / 1_000_000) as nat,
    ]
}

/// A written time shows each of its numbers at a fixed place.
proof fn lemma_stamp_places(t: Timestamp)
    requires
        t.wf(),
    ensures
        ({
            let s = stamp_text(t);
            let n = stamp_fields(t);
            &&& s.len() == 17
            &&& s.subrange(0, 2) == text::padded(n[0], 2)
            &&& s.subrange(2, 4) == text::padded(n[1], 2)
            &&& s.subrange(4, 6) == text::padded(n[2], 2)
            &&& s.subrange(7, 9) == text::padded(n[3], 2)
            &&& s.subrange(9, 11) == text::padded(n[4], 2)
            &&& s.subrange(11, 13) == text::padded(n[5], 2)
            &&& s.subrange(14, 17) == text::padded(n[6], 3)
        }),
{
    let s = stamp_text(t);
    let n = stamp_fields(t);
    lemma_every_day_has_a_date(t.day());
    text::lemma_padded_width(n[0]);
    text::lemma_padded_width(n[1]);
    text::lemma_padded_width(n[2]);
    text::lemma_padded_width(n[3]);
    text::lemma_padded_width(n[4]);
    text::lemma_padded_width(n[5]);
    text::lemma_padded_width(n[6]);
    assert(s.subrange(0, 2) =~= text::padded(n[0], 2));
    assert(s.subrange(2, 4) =~= text::padded(n[1], 2));
    assert(s.subrange(4, 6) =~= text::padded(n[2], 2));
    assert(s.subrange(7, 9) =~= text::padded(n[3], 2));
    assert(s.subrange(9, 11) =~= text::padded(n[4], 2));
    assert(s.subrange(11, 13) =~= text::padded(n[5], 2));
    assert(s.subrange(14, 17) =~= text::padded(n[6], 3));
}

/// Times less than a hundred years apart by the calendar which are written alike are the same to
/// the millisecond.
pub proof fn law_stamps_tell_times_apart(a: Timestamp, b: Timestamp)
    requires
        a.wf(),
        b.wf(),
        within_a_century(a, b),
        stamp_text(a) == stamp_text(b),
    ensures
        a.whole_millis() == b.whole_millis(),
{
    let m = stamp_fields(a);
    let n = stamp_fields(b);
    let x = calendar_date(a.day());
    let y = calendar_date(b.day());
    lemma_same_fields(a, b);
    lemma_every_day_has_a_date(a.day());
    lemma_every_day_has_a_date(b.day());
    assert(m[0] == n[0] && m[1] == n[1] && m[2] == n[2]);
    assert(x.0 % 100 == y.0 % 100);
    assert(x == y);
    assert(a.day() == b.day());
    assert(m[3] == n[3] && m[4] == n[4] && m[5] == n[5] && m[6] == n[6]);
    lemma_same_clock(a, b);
}

/// Times that are written alike are written with the same numbers.
proof fn lemma_same_fields(a: Timestamp, b: Timestamp)
    requires
        a.wf(),
        b.wf(),
        stamp_text(a) == stamp_text(b),
    ensures
        forall|k: int| 0 <= k < 7 ==> #[trigger] stamp_fields(a)[k] == stamp_fields(b)[k],
{
    let m = stamp_fields(a);
    let n = stamp_fields(b);
    lemma_stamp_places(a);
    lemma_stamp_places(b);
    assert forall|k: int| 0 <= k < 7 implies #[trigger] m[k] == n[k] by {
        let width: nat = if k == 6 {
            3
        } else {
            2
        };
        text::lemma_padded_value(m[k], width);
        text::lemma_padded_value(n[k], width);
    }
}

/// Times of one day with the same hour, minute, second and millisecond are the same to the
/// millisecond.
proof fn lemma_same_clock(a: Timestamp, b: Timestamp)
    requires
        a.wf(),
        b.wf(),
        a.day() == b.day(),
        a.second_of_day() / 3600 == b.second_of_day() / 3600,
        a.second_of_day() / 60 % 60 == b.second_of_day() / 60 % 60,
        a.second_of_day() % 60 + a.nanos as int / 1_000_000_000 == b.second_of_day() % 60
            + b.nanos as int / 1_000_000_000,
        a.nanos as int % 1_000_000_000 / 1_000_000 == b.nanos as int % 1_000_000_000 / 1_000_000,
    ensures
        a.whole_millis() == b.whole_millis(),
{
    assert(a.secs as int % 60 == a.second_of_day() % 60);
    assert(b.secs as int % 60 == b.second_of_day() % 60);
    assert(a.is_leap() == b.is_leap());
    assert(a.second_of_day() % 60 == b.second_of_day() % 60);
    assert(a.second_of_day() / 60 == b.second_of_day() / 60);
    assert(a.secs == b.secs);
}

/// Whether at least `ms` milliseconds lie between two times.
pub fn elapsed_at_least(now: &Timestamp, then: &Timestamp, ms: i64) -> (r: bool)
    requires
        now.wf(),
        then.wf(),
    ensures
        r == (elapsed_nanos(*now, *then) >= ms * 1_000_000),
{
    let span = chrono_since(now, then);
    span.0 as i128 * 1_000_000_000 + span.1 as i128 >= ms as i128 * 1_000_000
}

/// Times are ordered as they pass: by their seconds, and within a second by their nanoseconds. One
/// time is not after another, or after it; of two times that are not after each other there is
/// only one.
pub proof fn law_times_are_ordered(a: Timestamp, b: Timestamp)
    ensures
        a.le(b) <==> a.secs < b.secs || (a.secs == b.secs && a.nanos <= b.nanos),
        a.lt(b) <==> !b.le(a),
        a.le(b) && b.le(a) ==> a == b,
        !a.is_leap() && !b.is_leap() ==> (a.le(b) <==> a.secs * 1_000_000_000 + a.nanos <= b.secs
            * 1_000_000_000 + b.nanos),
        a.later(b) == if a.le(b) {
            b
        } else {
            a
        },
        a.earlier(b) == if a.le(b) {
            a
        } else {
            b
        },
        a.whole_millis().secs == a.secs,
        a.whole_millis().nanos % 1_000_000 == 0,
        a.whole_millis().nanos <= a.nanos < a.whole_millis().nanos + 1_000_000,
{
}

/// Leap seconds apart, a time that was shifted lies as far away as it was shifted.
pub proof fn law_shifted_times_are_that_far_away(t: Timestamp, ms: int)
    requires
        t.wf(),
        shifted(t, ms) is Some,
        !t.is_leap(),
    ensures
        shifted(t, ms)->0.secs * 1_000_000_000 + shifted(t, ms)->0.nanos == t.secs * 1_000_000_000
            + t.nanos + ms * 1_000_000,
        elapsed_nanos(shifted(t, ms)->0, t) == ms * 1_000_000,
{
}

} // verus!
