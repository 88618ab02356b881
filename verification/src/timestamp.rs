//! Points in time that remember the offset from UTC they were written with.

use crate::text::{is_ascii_digit, is_digit};
use vstd::prelude::*;

verus! {

/// Seconds in one day.
pub const DAY: i64 = 86_400;

/// Seconds from 0000-01-01T00:00:00 to 1970-01-01T00:00:00.
pub const YEAR_ZERO: i64 = 62_167_219_200;

/// Seconds from 1970-01-01T00:00:00 to 9999-12-31T23:59:59.
pub const YEAR_LAST: i64 = 253_402_300_799;

/// What a [`Timestamp`] stands for: an instant, counted in seconds since
/// 1970-01-01T00:00:00 UTC, and the offset of the local clock from UTC in
/// seconds, positive to the east.
pub struct TimeView {
    pub secs: int,
    pub offset: int,
}

/// The instants that can be written as `YYYY-MM-DDTHH:MM:SS+HH:MM`: the local
/// date lies in the years 0 to 9999 and the offset is a whole number of
/// minutes, less than a day either way.
pub open spec fn valid_time(t: TimeView) -> bool {
    &&& -YEAR_ZERO <= t.secs + t.offset <= YEAR_LAST
    &&& -DAY < t.offset < DAY
    &&& t.offset % 60 == 0
}

/// The fixed shape `YYYY-MM-DDTHH:MM:SS+HH:MM` (or with `-` before the
/// offset): 25 characters, digits where the letters stand.
pub open spec fn timestamp_shape(t: Seq<char>) -> bool {
    &&& t.len() == 25
    &&& is_digit(t[0]) && is_digit(t[1]) && is_digit(t[2]) && is_digit(t[3])
    &&& t[4] == '-'
    &&& is_digit(t[5]) && is_digit(t[6])
    &&& t[7] == '-'
    &&& is_digit(t[8]) && is_digit(t[9])
    &&& t[10] == 'T'
    &&& is_digit(t[11]) && is_digit(t[12])
    &&& t[13] == ':'
    &&& is_digit(t[14]) && is_digit(t[15])
    &&& t[16] == ':'
    &&& is_digit(t[17]) && is_digit(t[18])
    &&& (t[19] == '+' || t[19] == '-')
    &&& is_digit(t[20]) && is_digit(t[21])
    &&& t[22] == ':'
    &&& is_digit(t[23]) && is_digit(t[24])
}

/// Whether the 25 characters of `v` from `from` on have the shape of a
/// time.
pub(crate) fn has_timestamp_shape(v: &Vec<char>, from: usize) -> (r: bool)
    requires
        from + 25 <= v.len(),
    ensures
        r == timestamp_shape(v@.subrange(from as int, from + 25)),
{
    let ghost t = v@.subrange(from as int, from + 25);
    assert(forall|i: int| 0 <= i < 25 ==> t[i] == v@[from + i]);
    is_ascii_digit(v[from]) && is_ascii_digit(v[from + 1]) && is_ascii_digit(v[from + 2])
        && is_ascii_digit(v[from + 3]) && v[from + 4] == '-' && is_ascii_digit(v[from + 5])
        && is_ascii_digit(v[from + 6]) && v[from + 7] == '-' && is_ascii_digit(v[from + 8])
        && is_ascii_digit(v[from + 9]) && v[from + 10] == 'T' && is_ascii_digit(v[from + 11])
        && is_ascii_digit(v[from + 12]) && v[from + 13] == ':' && is_ascii_digit(v[from + 14])
        && is_ascii_digit(v[from + 15]) && v[from + 16] == ':' && is_ascii_digit(v[from + 17])
        && is_ascii_digit(v[from + 18]) && (v[from + 19] == '+' || v[from + 19] == '-')
        && is_ascii_digit(v[from + 20]) && is_ascii_digit(v[from + 21]) && v[from + 22] == ':'
        && is_ascii_digit(v[from + 23]) && is_ascii_digit(v[from + 24])
}

/// The instant and offset that chrono reads from an RFC 3339 text, if it
/// accepts the text.
pub uninterp spec fn rfc3339_value(text: Seq<char>) -> Option<(i64, i32)>;

/// The RFC 3339 text that chrono writes for an instant seen at an offset.
pub uninterp spec fn rfc3339_text(secs: i64, offset: i32) -> Seq<char>;

/// `DateTime::parse_from_rfc3339` of chrono, with the result taken apart
/// by `timestamp` and `offset().local_minus_utc()`. The parser reads a
/// four-digit year and an offset of hours and minutes below one day, so
/// whatever it accepts is a valid time.
#[verifier::external_body]
fn chrono_parse(text: &str) -> (r: Option<(i64, i32)>)
    ensures
        r == rfc3339_value(text@),
        r matches Some((s, o)) ==> valid_time(TimeView { secs: s as int, offset: o as int }),
{
    match chrono::DateTime::parse_from_rfc3339(text) {
        Ok(t) => Some((t.timestamp(), t.offset().local_minus_utc())),
        Err(_) => None,
    }
}

/// `DateTime::to_rfc3339` of chrono on the instant `secs` in the zone
/// `FixedOffset::east_opt(offset)`. For a year from 0 to 9999, no fraction
/// of a second and an offset of whole minutes the text has the fixed shape
/// of 25 characters, and chrono's parser reads the same instant and offset
/// back from it.
#[verifier::external_body]
fn chrono_format(secs: i64, offset: i32) -> (r: String)
    requires
        valid_time(TimeView { secs: secs as int, offset: offset as int }),
    ensures
        r@ == rfc3339_text(secs, offset),
        timestamp_shape(r@),
        rfc3339_value(r@) == Some((secs, offset)),
{
    let zone = chrono::FixedOffset::east_opt(offset).unwrap();
    chrono::TimeZone::timestamp_opt(&zone, secs, 0).unwrap().to_rfc3339()
}

/// `Local::now` of chrono, taken apart like a parsed time. Nothing is
/// known of the clock.
#[verifier::external_body]
fn chrono_now() -> (r: (i64, i32))
{
    let t = chrono::Local::now();
    (t.timestamp(), t.offset().local_minus_utc())
}

/// The day of a local clock, counted from 1970-01-01.
pub open spec fn local_day(t: TimeView) -> int {
    (t.secs + t.offset) / 86_400
}

/// The start of the local day that `t` falls in.
pub open spec fn midnight_of(t: TimeView) -> TimeView {
    TimeView { secs: local_day(t) * 86_400 - t.offset, offset: t.offset }
}

/// The day of the week of the local date, counted from Sunday as 0.
/// 1970-01-01 was a Thursday.
pub open spec fn weekday_of(t: TimeView) -> int {
    (local_day(t) + 4) % 7
}

/// The start of the local day of a valid time is a valid time, at most a
/// day before the time; the day of the week is one of seven.
pub proof fn lemma_local_day(t: TimeView)
    requires
        valid_time(t),
    ensures
        valid_time(midnight_of(t)),
        midnight_of(t).secs <= t.secs < midnight_of(t).secs + DAY,
        (midnight_of(t).secs + t.offset) % 86_400 == 0,
        0 <= weekday_of(t) < 7,
{
}

/// The text of a time: what chrono writes for it.
pub open spec fn time_text(t: TimeView) -> Seq<char> {
    rfc3339_text(t.secs as i64, t.offset as i32)
}

/// The time that a text stands for, if chrono accepts the text.
pub open spec fn text_time(text: Seq<char>) -> Option<TimeView> {
    match rfc3339_value(text) {
        Some((s, o)) => Some(TimeView { secs: s as int, offset: o as int }),
        None => None,
    }
}

/// A time that is written in the fixed shape of 25 characters and read
/// back as it was. Every time that was written by this library is one.
pub open spec fn time_ok(t: TimeView) -> bool {
    &&& valid_time(t)
    &&& timestamp_shape(time_text(t))
    &&& text_time(time_text(t)) == Some(t)
}

/// `t` moved by `delta` seconds, the offset kept.
pub open spec fn shifted(t: TimeView, delta: int) -> TimeView {
    TimeView { secs: t.secs + delta, offset: t.offset }
}

/// An instant with second precision together with its offset from UTC.
#[derive(Clone, Copy, Debug, PartialEq, Eq, Structural)]
pub struct Timestamp {
    secs: i64,
    offset: i32,
}

impl View for Timestamp {
    type V = TimeView;

    closed spec fn view(&self) -> TimeView {
        TimeView { secs: self.secs as int, offset: self.offset as int }
    }
}

impl Timestamp {
    #[verifier::type_invariant]
    spec fn inv(self) -> bool {
        valid_time(self@)
    }

    /// The timestamp for `secs` seconds since the epoch seen at `offset`
    /// seconds east of UTC, if that is a valid time.
    pub fn new(secs: i64, offset: i32) -> (r: Option<Timestamp>)
        ensures
            r is Some <==> valid_time(TimeView { secs: secs as int, offset: offset as int }),
            r matches Some(t) ==> t@ == (TimeView { secs: secs as int, offset: offset as int }),
    {
        if offset <= -86_400 || offset >= 86_400 || offset % 60 != 0 {
            return None;
        }
        if secs < -YEAR_ZERO - 86_400 || secs > YEAR_LAST + 86_400 {
            return None;
        }
        let local: i64 = secs + offset as i64;
        if local < -YEAR_ZERO || local > YEAR_LAST {
            return None;
        }
        Some(Timestamp { secs, offset })
    }

    /// The current time of the local clock, to the second, or `None` where
    /// the clock shows a time that cannot be written down.
    pub fn now() -> (r: Option<Timestamp>)
        ensures
            r matches Some(t) ==> valid_time(t@),
    {
        let (secs, offset) = chrono_now();
        Timestamp::new(secs, offset)
    }

    /// Reads an RFC 3339 date and time such as `1996-12-19T16:39:57-08:00`.
    pub fn parse_from_rfc3339(text: &str) -> (r: Option<Timestamp>)
        ensures
            match rfc3339_value(text@) {
                Some((s, o)) => r matches Some(t) && t@ == (TimeView {
                    secs: s as int,
                    offset: o as int,
                }),
                None => r is None,
            },
    {
        match chrono_parse(text) {
            Some((secs, offset)) => Timestamp::new(secs, offset),
            None => None,
        }
    }

    /// Writes the time as `YYYY-MM-DDTHH:MM:SS+HH:MM`.
    pub fn to_rfc3339(&self) -> (r: String)
        ensures
            r@ == time_text(self@),
            time_ok(self@),
    {
        proof {
            use_type_invariant(self);
        }
        chrono_format(self.secs, self.offset)
    }

    /// The start of the local day.
    pub fn midnight(&self) -> (r: Timestamp)
        ensures
            r@ == midnight_of(self@),
    {
        proof {
            use_type_invariant(self);
        }
        let since_year_zero: i64 = self.secs + self.offset as i64 + YEAR_ZERO;
        let into_day: i64 = since_year_zero % DAY;
        Timestamp { secs: self.secs - into_day, offset: self.offset }
    }

    /// The day of the week, counted from Sunday as 0.
    pub fn weekday(&self) -> (r: u32)
        ensures
            r == weekday_of(self@),
            r < 7,
    {
        proof {
            use_type_invariant(self);
        }
        let since_year_zero: i64 = self.secs + self.offset as i64 + YEAR_ZERO;
        let days: i64 = since_year_zero / DAY;
        // 0000-01-01 was a Saturday.
        ((days + 6) % 7) as u32
    }

    /// The time `delta` seconds later (earlier for a negative `delta`) at
    /// the same offset; `None` where that leaves the years 0 to 9999.
    pub fn plus_seconds(&self, delta: i64) -> (r: Option<Timestamp>)
        ensures
            r is Some <==> valid_time(shifted(self@, delta as int)),
            r matches Some(t) ==> t@ == shifted(self@, delta as int),
    {
        proof {
            use_type_invariant(self);
        }
        match self.secs.checked_add(delta) {
            Some(secs) => Timestamp::new(secs, self.offset),
            None => None,
        }
    }

    /// Whether `self` is an earlier instant than `other`.
    pub fn is_before(&self, other: &Timestamp) -> (r: bool)
        ensures
            r == (self@.secs < other@.secs),
    {
        self.secs < other.secs
    }

    /// Seconds from `earlier` to `self`, negative where `self` comes first.
    pub fn seconds_since(&self, earlier: &Timestamp) -> (r: i64)
        ensures
            r == self@.secs - earlier@.secs,
    {
        proof {
            use_type_invariant(self);
            use_type_invariant(earlier);
        }
        self.secs - earlier.secs
    }

    /// Seconds since 1970-01-01T00:00:00 UTC.
    pub fn secs(&self) -> (r: i64)
        ensures
            r == self@.secs,
            valid_time(self@),
    {
        proof {
            use_type_invariant(self);
        }
        self.secs
    }

    /// Offset of the local clock from UTC, in seconds.
    pub fn offset(&self) -> (r: i32)
        ensures
            r == self@.offset,
            valid_time(self@),
    {
        proof {
            use_type_invariant(self);
        }
        self.offset
    }
}

} // verus!
