//! Reading phrases such as `monday at 1am` or `in 3 days` as a time to
//! come.
//!
//! A phrase is cut into words, the filler words left out. Three readings
//! are tried in turn: an amount and a unit from now; a day of the week, or
//! `tomorrow`, with a time of day if one follows; a time of day alone.

use crate::text::{
    from_chars, int_of, is_word, lowered, read_digits, read_int, replace_all, replaced, run_end,
    run_len, split_words, sub_chars, to_chars, tokens, unsigned_of, views, CharClass,
};
use crate::timestamp::{midnight_of, valid_time, weekday_of, TimeView, Timestamp};
use vstd::prelude::*;

verus! {

/// The day of the week that a name stands for, counted from Sunday as 0.
/// A name is the English name of the day or its first three letters, in
/// capital or small letters.
pub open spec fn weekday_of_name(name: Seq<char>) -> Option<int> {
    let low = lowered(name);
    if low == "sun"@ || low == "sunday"@ {
        Some(0)
    } else if low == "mon"@ || low == "monday"@ {
        Some(1)
    } else if low == "tue"@ || low == "tuesday"@ {
        Some(2)
    } else if low == "wed"@ || low == "wednesday"@ {
        Some(3)
    } else if low == "thu"@ || low == "thursday"@ {
        Some(4)
    } else if low == "fri"@ || low == "friday"@ {
        Some(5)
    } else if low == "sat"@ || low == "saturday"@ {
        Some(6)
    } else {
        None
    }
}

/// `str::parse::<chrono::Weekday>`, the day then counted by
/// `num_days_from_sunday`. Chrono accepts the three-letter name of a day
/// and its full English name, whatever the case of the letters, and
/// nothing else.
#[verifier::external_body]
fn chrono_weekday(name: &str) -> (r: Option<u32>)
    ensures
        match weekday_of_name(name@) {
            Some(day) => r == Some(day as u32),
            None => r is None,
        },
{
    match name.parse::<chrono::Weekday>() {
        Ok(day) => Some(day.num_days_from_sunday()),
        Err(_) => None,
    }
}

/// The hour of the day that a bare hour stands for: 8 to 11 are hours of
/// the morning, every other number is taken as an hour after noon.
pub open spec fn am_pm_hour(hour: int) -> int {
    if 7 < hour < 12 {
        hour
    } else {
        hour + 12
    }
}

/// The seconds after midnight that a time of day with digits in front
/// stands for: `H:MMam`, `H:MMpm`, `H:MM`, `Ham` or `Hpm`. The hour and the
/// minute are not held to any range.
pub open spec fn clock_with_suffix(phrase: Seq<char>) -> Option<int> {
    let h_len = run_len(phrase, CharClass::Digit) as int;
    let rest = phrase.skip(h_len);
    let m_len = if rest.len() > 0 && rest[0] == ':' {
        run_len(rest.skip(1), CharClass::Digit) as int
    } else {
        0
    };
    if h_len == 0 {
        None
    } else if m_len > 0 {
        let tail = rest.skip(1 + m_len);
        match (unsigned_of(phrase.take(h_len)), unsigned_of(rest.subrange(1, 1 + m_len))) {
            (Some(hour), Some(minute)) => if tail == "am"@ {
                Some(hour * 3600 + minute * 60)
            } else if tail == "pm"@ {
                Some((hour + 12) * 3600 + minute * 60)
            } else if tail.len() == 0 {
                Some(am_pm_hour(hour) * 3600 + minute * 60)
            } else {
                None
            },
            _ => None,
        }
    } else {
        match unsigned_of(phrase.take(h_len)) {
            Some(hour) => if rest == "am"@ {
                Some(hour * 3600)
            } else if rest == "pm"@ {
                Some((hour + 12) * 3600)
            } else {
                None
            },
            None => None,
        }
    }
}

/// The seconds after midnight that a time of day stands for. `noon` is
/// 12 hours, `morning` 8, `evening` 6 and `afternoon` 2; a whole number is
/// a bare hour; anything else must start with digits.
pub open spec fn clock_seconds(phrase: Seq<char>) -> Option<int> {
    if phrase == "noon"@ {
        Some(12 * 3600int)
    } else if phrase == "morning"@ {
        Some(8 * 3600int)
    } else if phrase == "evening"@ {
        Some(6 * 3600int)
    } else if phrase == "afternoon"@ {
        Some(2 * 3600int)
    } else {
        match int_of(phrase) {
            Some(hour) => Some(am_pm_hour(hour) * 3600),
            None => clock_with_suffix(phrase),
        }
    }
}

/// The seconds in a unit of time given by name.
pub open spec fn unit_seconds(unit: Seq<char>) -> Option<int> {
    if unit == "minute"@ || unit == "minutes"@ {
        Some(60)
    } else if unit == "hour"@ || unit == "hours"@ {
        Some(3600)
    } else if unit == "day"@ || unit == "days"@ {
        Some(86_400)
    } else {
        None
    }
}

/// The first reading: a whole number and a unit, and nothing else, give
/// the time that many units from now. The result counts seconds since the
/// epoch.
pub open spec fn relative_target(words: Seq<Seq<char>>, now: TimeView) -> Option<int> {
    if words.len() != 2 {
        None
    } else {
        match (int_of(words[0]), unit_seconds(words[1])) {
            (Some(amount), Some(unit)) => Some(now.secs + amount * unit),
            _ => None,
        }
    }
}

/// How many days ahead the next `day` of the week lies when today is
/// `today`: from 1 to 7, never 0.
pub open spec fn days_ahead(today: int, day: int) -> int {
    if today < day {
        day - today
    } else {
        7 + day - today
    }
}

/// The next day of the week is never today: it lies from one to seven
/// days ahead, and a week ahead where today is that day.
pub proof fn lemma_days_ahead(today: int, day: int)
    requires
        0 <= today < 7,
        0 <= day < 7,
    ensures
        1 <= days_ahead(today, day) <= 7,
        (today + days_ahead(today, day)) % 7 == day,
        today == day ==> days_ahead(today, day) == 7,
        days_ahead(today, (today + 1) % 7) == 1,
{
}

/// The day of the week that a word names: a day by its name, or the day
/// after today for `tomorrow`.
pub open spec fn named_day(word: Seq<char>, today: int) -> Option<int> {
    match weekday_of_name(word) {
        Some(day) => Some(day),
        None => if word == "tomorrow"@ {
            Some((today + 1) % 7)
        } else {
            None
        },
    }
}

/// The second reading: a day of the week gives the start of the next
/// such day after today, and a time of day after it is added to that. More
/// than two words are not read.
pub open spec fn weekday_target(words: Seq<Seq<char>>, now: TimeView) -> Option<int> {
    if words.len() == 0 || words.len() > 2 {
        None
    } else {
        match named_day(words[0], weekday_of(now)) {
            Some(day) => {
                let start = midnight_of(now).secs + days_ahead(weekday_of(now), day) * 86_400;
                if words.len() == 1 {
                    Some(start)
                } else {
                    match clock_seconds(words[1]) {
                        Some(clock) => Some(start + clock),
                        None => None,
                    }
                }
            },
            None => None,
        }
    }
}

/// The third reading: a time of day, and nothing else, gives that time
/// today, or a day later where that has passed already.
pub open spec fn clock_target(words: Seq<Seq<char>>, now: TimeView) -> Option<int> {
    if words.len() != 1 {
        None
    } else {
        match clock_seconds(words[0]) {
            Some(clock) => {
                let today = midnight_of(now).secs + clock;
                if today < now.secs {
                    Some(today + 86_400)
                } else {
                    Some(today)
                }
            },
            None => None,
        }
    }
}

/// A time of day of a day's length at most, read alone, is never in the
/// past, and less than a day and the time of day ahead.
pub proof fn lemma_clock_target(words: Seq<Seq<char>>, now: TimeView)
    requires
        valid_time(now),
        clock_target(words, now) is Some,
        0 <= clock_seconds(words[0]).unwrap() <= 86_400,
    ensures
        now.secs <= clock_target(words, now).unwrap() < now.secs + 2 * 86_400,
{
    crate::timestamp::lemma_local_day(now);
}

/// The phrase between two spaces, with the filler words taken out one
/// kind after the other.
pub open spec fn without_fillers(input: Seq<char>) -> Seq<char> {
    let s0 = seq![' '] + input + seq![' '];
    let s1 = replaced(s0, " at "@, " "@);
    let s2 = replaced(s1, " on "@, " "@);
    let s3 = replaced(s2, " from "@, " "@);
    let s4 = replaced(s3, " now "@, " "@);
    let s5 = replaced(s4, " in "@, " "@);
    replaced(s5, " a "@, " "@)
}

/// The instant that the words stand for, by the first of the three
/// readings that applies.
pub open spec fn words_target(words: Seq<Seq<char>>, now: TimeView) -> Option<int> {
    if relative_target(words, now) is Some {
        relative_target(words, now)
    } else if weekday_target(words, now) is Some {
        weekday_target(words, now)
    } else {
        clock_target(words, now)
    }
}

/// The time that a phrase stands for when it is read at the time `now`:
/// the instant that its words give, at the offset of `now`, if that is a
/// valid time.
pub open spec fn inferred(input: Seq<char>, now: TimeView) -> Option<TimeView> {
    match words_target(tokens(without_fillers(input)), now) {
        Some(secs) => {
            let t = TimeView { secs, offset: now.offset };
            if valid_time(t) {
                Some(t)
            } else {
                None
            }
        },
        None => None,
    }
}

/// The seconds that the hour and the minute make.
fn clock_of(hour: i128, minute: i128) -> (r: i128)
    requires
        -0x1_0000_0000_0000_0000 <= hour <= 0x1_0000_0000_0000_0000,
        0 <= minute <= 0x1_0000_0000_0000_0000,
    ensures
        r == hour * 3600 + minute * 60,
{
    hour * 3600 + minute * 60
}

/// The hour of the day for a bare hour.
fn hour_of_day(hour: i64) -> (r: i128)
    ensures
        r == am_pm_hour(hour as int),
{
    if 7 < hour && hour < 12 {
        hour as i128
    } else {
        hour as i128 + 12
    }
}

/// Reads a time of day that starts with digits.
fn parse_clock_digits(v: &Vec<char>) -> (r: Option<i128>)
    ensures
        r matches Some(x) ==> clock_with_suffix(v@) == Some(x as int),
        r is None ==> clock_with_suffix(v@) is None,
{
    let h_end: usize = run_end(v, 0, CharClass::Digit);
    assert(v@.skip(0) =~= v@);
    if h_end == 0 {
        return None;
    }
    let ghost rest = v@.skip(h_end as int);
    assert(v@.subrange(0, h_end as int) =~= v@.take(h_end as int));
    let m_end: usize = if h_end < v.len() && v[h_end] == ':' {
        run_end(v, h_end + 1, CharClass::Digit)
    } else {
        h_end
    };
    proof {
        if h_end < v.len() {
            assert(rest[0] == v@[h_end as int]);
            assert(rest.skip(1) =~= v@.skip(h_end + 1));
        }
    }
    let hour: i64 = match read_digits(v, 0, h_end, 0x7FFF_FFFF_FFFF_FFFF) {
        Some(h) => h as i64,
        None => {
            return None;
        },
    };
    if m_end - h_end > 1 {
        assert(rest.subrange(1, m_end - h_end) =~= v@.subrange(h_end + 1, m_end as int));
        let minute: i64 = match read_digits(v, h_end + 1, m_end, 0x7FFF_FFFF_FFFF_FFFF) {
            Some(m) => m as i64,
            None => {
                return None;
            },
        };
        let tail = sub_chars(v, m_end, v.len());
        assert(tail@ =~= rest.skip(m_end - h_end));
        if is_word(&tail, "am") {
            Some(clock_of(hour as i128, minute as i128))
        } else if is_word(&tail, "pm") {
            Some(clock_of(hour as i128 + 12, minute as i128))
        } else if tail.len() == 0 {
            Some(clock_of(hour_of_day(hour), minute as i128))
        } else {
            None
        }
    } else {
        let tail = sub_chars(v, h_end, v.len());
        assert(tail@ =~= rest);
        if is_word(&tail, "am") {
            Some(clock_of(hour as i128, 0))
        } else if is_word(&tail, "pm") {
            Some(clock_of(hour as i128 + 12, 0))
        } else {
            None
        }
    }
}

/// Reads a time of day as seconds after midnight.
fn parse_clock(v: &Vec<char>) -> (r: Option<i128>)
    ensures
        r matches Some(x) ==> clock_seconds(v@) == Some(x as int),
        r is None ==> clock_seconds(v@) is None,
{
    if is_word(v, "noon") {
        Some(12 * 3600)
    } else if is_word(v, "morning") {
        Some(8 * 3600)
    } else if is_word(v, "evening") {
        Some(6 * 3600)
    } else if is_word(v, "afternoon") {
        Some(2 * 3600)
    } else {
        match read_int(v) {
            Some(hour) => Some(clock_of(hour_of_day(hour), 0)),
            None => parse_clock_digits(v),
        }
    }
}

/// Reads a time of day, such as `noon`, `10am`, `9:30` or `7`, as seconds
/// after midnight.
pub fn parse_time(time: &str) -> (r: Option<i128>)
    ensures
        r matches Some(x) ==> clock_seconds(time@) == Some(x as int),
        r is None ==> clock_seconds(time@) is None,
{
    let v = to_chars(time);
    parse_clock(&v)
}

/// Reads the name of a unit of time as its seconds.
fn parse_unit(v: &Vec<char>) -> (r: Option<i128>)
    ensures
        r matches Some(x) ==> unit_seconds(v@) == Some(x as int),
        r is None ==> unit_seconds(v@) is None,
{
    if is_word(v, "minute") || is_word(v, "minutes") {
        Some(60)
    } else if is_word(v, "hour") || is_word(v, "hours") {
        Some(3600)
    } else if is_word(v, "day") || is_word(v, "days") {
        Some(86_400)
    } else {
        None
    }
}

/// The first reading: `1 day`, `3 hours`, `2 minutes` from now, two words
/// and no more.
pub fn time_from_date(parts: &Vec<Vec<char>>, now: Timestamp) -> (r: Option<i128>)
    ensures
        r matches Some(x) ==> relative_target(views(parts@), now@) == Some(x as int),
        r is None ==> relative_target(views(parts@), now@) is None,
{
    if parts.len() != 2 {
        return None;
    }
    assert(views(parts@)[0] == parts@[0]@);
    assert(views(parts@)[1] == parts@[1]@);
    let amount: i64 = match read_int(&parts[0]) {
        Some(n) => n,
        None => {
            return None;
        },
    };
    let unit: i128 = match parse_unit(&parts[1]) {
        Some(u) => u,
        None => {
            return None;
        },
    };
    let secs: i64 = now.secs();
    Some(secs as i128 + amount as i128 * unit)
}

/// The day of the week that a word names.
fn parse_day(word: &Vec<char>, today: u32) -> (r: Option<u32>)
    requires
        today < 7,
    ensures
        r matches Some(x) ==> named_day(word@, today as int) == Some(x as int) && x < 7,
        r is None ==> named_day(word@, today as int) is None,
{
    let name = from_chars(word);
    match chrono_weekday(name.as_str()) {
        Some(day) => Some(day),
        None => if is_word(word, "tomorrow") {
            Some((today + 1) % 7)
        } else {
            None
        },
    }
}

/// The second reading: `tuesday`, `tomorrow`, `friday noon`.
pub fn parse_on_dates(parts: &Vec<Vec<char>>, now: Timestamp) -> (r: Option<i128>)
    ensures
        r matches Some(x) ==> weekday_target(views(parts@), now@) == Some(x as int),
        r is None ==> weekday_target(views(parts@), now@) is None,
{
    if parts.len() == 0 || parts.len() > 2 {
        return None;
    }
    assert(views(parts@)[0] == parts@[0]@);
    let today: u32 = now.weekday();
    let day: u32 = match parse_day(&parts[0], today) {
        Some(d) => d,
        None => {
            return None;
        },
    };
    let ahead: u32 = if today < day {
        day - today
    } else {
        7 + day - today
    };
    let midnight: i64 = now.midnight().secs();
    let start: i128 = midnight as i128 + ahead as i128 * 86_400;
    if parts.len() == 1 {
        Some(start)
    } else {
        assert(views(parts@)[1] == parts@[1]@);
        match parse_clock(&parts[1]) {
            Some(clock) => Some(start + clock),
            None => None,
        }
    }
}

/// The third reading: a time of day, today if it is still to come and
/// tomorrow if not.
pub fn just_time(parts: &Vec<Vec<char>>, now: Timestamp) -> (r: Option<i128>)
    ensures
        r matches Some(x) ==> clock_target(views(parts@), now@) == Some(x as int),
        r is None ==> clock_target(views(parts@), now@) is None,
{
    if parts.len() != 1 {
        return None;
    }
    assert(views(parts@)[0] == parts@[0]@);
    let clock: i128 = match parse_clock(&parts[0]) {
        Some(c) => c,
        None => {
            return None;
        },
    };
    let midnight: i64 = now.midnight().secs();
    let today: i128 = midnight as i128 + clock;
    if today < now.secs() as i128 {
        Some(today + 86_400)
    } else {
        Some(today)
    }
}

/// The words of a phrase, the filler words `at`, `on`, `from`, `now`, `in`
/// and `a` left out.
pub fn phrase_words(input: &str) -> (r: Vec<Vec<char>>)
    ensures
        views(r@) == tokens(without_fillers(input@)),
{
    let mut s: Vec<char> = Vec::new();
    s.push(' ');
    crate::text::append_str(&mut s, input);
    s.push(' ');
    assert(s@ =~= seq![' '] + input@ + seq![' ']);
    let s1 = replace_all(&s, " at ", " ");
    let s2 = replace_all(&s1, " on ", " ");
    let s3 = replace_all(&s2, " from ", " ");
    let s4 = replace_all(&s3, " now ", " ");
    let s5 = replace_all(&s4, " in ", " ");
    let s6 = replace_all(&s5, " a ", " ");
    split_words(&s6)
}

/// The time to come that a phrase such as `in 1 hour`, `monday at 1am` or
/// `noon` stands for when it is read at the time `now`. There is none for
/// a phrase that none of the three readings applies to, nor where the
/// time would lie outside the years 0 to 9999.
pub fn infer_future_time_from_datetime(input: &str, now: Timestamp) -> (r: Option<Timestamp>)
    ensures
        match inferred(input@, now@) {
            Some(t) => r matches Some(x) && x@ == t,
            None => r is None,
        },
{
    let parts = phrase_words(input);
    let target: i128 = match time_from_date(&parts, now) {
        Some(t) => t,
        None => match parse_on_dates(&parts, now) {
            Some(t) => t,
            None => match just_time(&parts, now) {
                Some(t) => t,
                None => {
                    return None;
                },
            },
        },
    };
    if target < -0x8000_0000_0000_0000 || target > 0x7FFF_FFFF_FFFF_FFFF {
        return None;
    }
    Timestamp::new(target as i64, now.offset())
}

/// The time to come that a phrase stands for when it is read now, by the
/// local clock.
pub fn infer_future_time(input: &str) -> (r: Option<Timestamp>)
    ensures
        r matches Some(t) ==> exists|now: TimeView| valid_time(now) && inferred(input@, now) == Some(t@),
{
    match Timestamp::now() {
        Some(now) => infer_future_time_from_datetime(input, now),
        None => None,
    }
}

} // verus!
