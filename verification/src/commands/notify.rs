//! Which reminders are due, and which have been delivered.
//!
//! The times of the reminders that were delivered are kept as text, one
//! time on each line; a reminder is known by the time its entry was made.

use crate::jot::{Jot, JotView, KindView, MessageType};
use crate::text::{from_chars, lemma_views_push, lines, split_lines, to_chars, views};
use crate::timestamp::{text_time, time_text, TimeView, Timestamp};
use vstd::prelude::*;

verus! {

/// How old, in seconds, an entry may be for its reminder to be delivered.
pub const FRESH_SECONDS: i64 = 86_400;

/// How many seconds before it is due a reminder is waited for.
pub const NEAR_SECONDS: i64 = 60;

/// How many seconds the daemon sleeps between two looks at the journal.
pub const POLL_SECONDS: u64 = 1;

/// What to do about an entry when looking for reminders.
#[derive(Clone, Copy, Debug, PartialEq, Eq, Structural)]
pub enum ReminderAction {
    /// Nothing.
    Skip,
    /// Deliver the reminder now.
    Notify,
    /// Wait this many seconds, then deliver the reminder.
    Wait(u64),
}

/// What to do about an entry at the time `now`, given the reminders that
/// were delivered. Only a reminder asks for anything, and only while its
/// entry is no older than a day and it was not delivered. It is delivered
/// once it is due, and waited for when it is due in less than a minute.
pub open spec fn reminder_action(e: JotView, notified: Seq<TimeView>, now: TimeView)
    -> ReminderAction {
    match e.msg_type {
        KindView::Reminder(due) => {
            if now.secs - e.datetime.secs > FRESH_SECONDS {
                ReminderAction::Skip
            } else if notified.contains(e.datetime) {
                ReminderAction::Skip
            } else if due.secs <= now.secs {
                ReminderAction::Notify
            } else if due.secs - now.secs < NEAR_SECONDS {
                ReminderAction::Wait((due.secs - now.secs) as u64)
            } else {
                ReminderAction::Skip
            }
        },
        _ => ReminderAction::Skip,
    }
}

/// Whether `list` holds the time `t`.
fn holds_time(list: &Vec<Timestamp>, t: Timestamp) -> (r: bool)
    ensures
        r == views(list@).contains(t@),
{
    let ghost times = views(list@);
    let mut i: usize = 0;
    while i < list.len()
        invariant
            i <= list.len(),
            times == views(list@),
            forall|j: int| 0 <= j < i ==> times[j] != t@,
        decreases list.len() - i,
    {
        assert(times[i as int] == list@[i as int]@);
        if list[i].secs() == t.secs() && list[i].offset() == t.offset() {
            assert(times[i as int] == t@);
            return true;
        }
        i += 1;
    }
    false
}

/// What to do about the entry at the time `now`.
pub fn check_reminder(jot: &Jot, notified: &Vec<Timestamp>, now: Timestamp) -> (r: ReminderAction)
    ensures
        r == reminder_action(jot@, views(notified@), now@),
{
    match jot.msg_type {
        MessageType::Reminder(due) => {
            if now.seconds_since(&jot.datetime) > FRESH_SECONDS {
                ReminderAction::Skip
            } else if holds_time(notified, jot.datetime) {
                ReminderAction::Skip
            } else {
                let ahead: i64 = due.seconds_since(&now);
                if ahead <= 0 {
                    ReminderAction::Notify
                } else if ahead < NEAR_SECONDS {
                    ReminderAction::Wait(ahead as u64)
                } else {
                    ReminderAction::Skip
                }
            }
        },
        _ => ReminderAction::Skip,
    }
}

/// The places of the first `n` entries whose reminder is to be delivered
/// now, in their order.
pub open spec fn due_now(entries: Seq<JotView>, notified: Seq<TimeView>, now: TimeView, n: int)
    -> Seq<usize>
    decreases n,
{
    if n <= 0 {
        Seq::empty()
    } else if reminder_action(entries[n - 1], notified, now) == ReminderAction::Notify {
        due_now(entries, notified, now, n - 1).push((n - 1) as usize)
    } else {
        due_now(entries, notified, now, n - 1)
    }
}

/// The places of the first `n` entries whose reminder is to be delivered
/// now or within the minute, each with the seconds to wait before it is
/// delivered, in their order.
pub open spec fn due_soon(entries: Seq<JotView>, notified: Seq<TimeView>, now: TimeView, n: int)
    -> Seq<(usize, u64)>
    decreases n,
{
    if n <= 0 {
        Seq::empty()
    } else {
        match reminder_action(entries[n - 1], notified, now) {
            ReminderAction::Skip => due_soon(entries, notified, now, n - 1),
            ReminderAction::Notify => due_soon(entries, notified, now, n - 1).push(
                ((n - 1) as usize, 0u64),
            ),
            ReminderAction::Wait(secs) => due_soon(entries, notified, now, n - 1).push(
                ((n - 1) as usize, secs),
            ),
        }
    }
}

/// The places in `jots` of the reminders to deliver at the time `now`:
/// those that are due, were not delivered, and whose entry is no older
/// than a day.
pub fn notify(jots: &Vec<Jot>, notified: &Vec<Timestamp>, now: Timestamp) -> (r: Vec<usize>)
    ensures
        r@ == due_now(views(jots@), views(notified@), now@, jots.len() as int),
{
    let ghost entries = views(jots@);
    let mut r: Vec<usize> = Vec::new();
    let mut i: usize = 0;
    while i < jots.len()
        invariant
            i <= jots.len(),
            entries == views(jots@),
            r@ == due_now(entries, views(notified@), now@, i as int),
        decreases jots.len() - i,
    {
        assert(entries[i as int] == jots@[i as int]@);
        match check_reminder(&jots[i], notified, now) {
            ReminderAction::Notify => {
                r.push(i);
            },
            _ => {},
        }
        i += 1;
    }
    r
}

/// One look of the daemon at the journal: the places in `jots` of the
/// reminders to deliver, each with the seconds to wait first: none for a
/// reminder that is due, the seconds until it is due for one that is due
/// within the minute.
pub fn daemon_mode(jots: &Vec<Jot>, notified: &Vec<Timestamp>, now: Timestamp) -> (r: Vec<
    (usize, u64),
>)
    ensures
        r@ == due_soon(views(jots@), views(notified@), now@, jots.len() as int),
{
    let ghost entries = views(jots@);
    let mut r: Vec<(usize, u64)> = Vec::new();
    let mut i: usize = 0;
    while i < jots.len()
        invariant
            i <= jots.len(),
            entries == views(jots@),
            r@ == due_soon(entries, views(notified@), now@, i as int),
        decreases jots.len() - i,
    {
        assert(entries[i as int] == jots@[i as int]@);
        match check_reminder(&jots[i], notified, now) {
            ReminderAction::Skip => {},
            ReminderAction::Notify => {
                r.push((i, 0));
            },
            ReminderAction::Wait(secs) => {
                r.push((i, secs));
            },
        }
        i += 1;
    }
    r
}

/// The times that the lines give, in their order; a line that is no time
/// gives none.
pub open spec fn times_of(lines: Seq<Seq<char>>) -> Seq<TimeView>
    decreases lines.len(),
{
    if lines.len() == 0 {
        Seq::empty()
    } else {
        match text_time(lines.last()) {
            Some(t) => times_of(lines.drop_last()).push(t),
            None => times_of(lines.drop_last()),
        }
    }
}

/// Reads the times of the reminders that were delivered from their text,
/// one time on each line.
pub fn load_notified(text: &str) -> (r: Vec<Timestamp>)
    ensures
        views(r@) == times_of(split_lines(text@)),
{
    let chars = to_chars(text);
    let all = lines(&chars);
    let ghost rows = views(all@);
    let mut r: Vec<Timestamp> = Vec::new();
    let mut i: usize = 0;
    proof {
        assert(rows.take(0) =~= Seq::<Seq<char>>::empty());
        assert(views(r@) =~= Seq::<TimeView>::empty());
    }
    while i < all.len()
        invariant
            i <= all.len(),
            rows == views(all@),
            views(r@) == times_of(rows.take(i as int)),
        decreases all.len() - i,
    {
        proof {
            assert(rows.take(i + 1).drop_last() =~= rows.take(i as int));
            assert(rows.take(i + 1).last() == all@[i as int]@);
        }
        let line = from_chars(&all[i]);
        match Timestamp::parse_from_rfc3339(line.as_str()) {
            Some(t) => {
                proof {
                    lemma_views_push(r@, t);
                }
                r.push(t);
            },
            None => {},
        }
        i += 1;
    }
    assert(rows.take(all.len() as int) =~= rows);
    r
}

/// The line that records that the reminder of the entry made at the time
/// `made` was delivered.
pub fn mark_notified(made: Timestamp) -> (r: String)
    ensures
        r@ == time_text(made@).push('\n'),
{
    let mut r = made.to_rfc3339();
    r.push('\n');
    r
}

} // verus!
