//! Making new entries.
//!
//! A new entry gets an id that no entry has yet; fewer ids must be in use
//! than there are ids of 32 bits.

use crate::jot::{tags_of, Jot, KindView, MessageType};
use crate::round_trip::well_read;
use crate::text::{is_blank, to_chars, trim, views};
use crate::timestamp::Timestamp;
use crate::utils::fresh_id;
use vstd::prelude::*;

verus! {

/// Whether a new entry with the message and kind given may be `r`: there
/// is none for a message of white space alone; otherwise it holds the
/// message trimmed, its tags, the time `now` and an id not in use.
pub open spec fn created(
    r: Option<Jot>,
    message: Seq<char>,
    kind: KindView,
    now: Timestamp,
    used: Seq<Seq<char>>,
) -> bool {
    if trim(message).len() == 0 {
        r is None
    } else {
        &&& r matches Some(jot)
        &&& jot@.datetime == now@
        &&& jot@.message == trim(message)
        &&& jot@.msg_type == kind
        &&& jot@.id == 0
        &&& jot@.tags == tags_of(trim(message))
        &&& jot@.uuid matches Some(u)
        &&& !used.contains(u)
        &&& exists|draw: nat| u == fresh_id(used, draw)
        &&& well_read(jot@)
    }
}

/// Makes the entry of the kind given for a message that the user wrote.
fn create(
    message: &str,
    kind: MessageType,
    now: Timestamp,
    previous_uuids: &Vec<String>,
) -> (r: Option<Jot>)
    requires
        previous_uuids@.len() < 0xFFFF_FFFF,
    ensures
        created(r, message@, kind@, now, views(previous_uuids@)),
{
    let chars = to_chars(message);
    if is_blank(&chars) {
        return None;
    }
    Some(Jot::new(message, kind, now, previous_uuids))
}

/// Makes a note from the message that the user wrote. There is no note
/// for a message that is empty or white space alone.
pub fn create_note_command(message: &str, now: Timestamp, previous_uuids: &Vec<String>) -> (r:
    Option<Jot>)
    requires
        previous_uuids@.len() < 0xFFFF_FFFF,
    ensures
        created(r, message@, KindView::Note, now, views(previous_uuids@)),
{
    create(message, MessageType::Note, now, previous_uuids)
}

/// Makes a todo that is not done from the message that the user wrote.
/// There is no todo for a message that is empty or white space alone.
pub fn create_todo_command(message: &str, now: Timestamp, previous_uuids: &Vec<String>) -> (r:
    Option<Jot>)
    requires
        previous_uuids@.len() < 0xFFFF_FFFF,
    ensures
        created(r, message@, KindView::Todo(None), now, views(previous_uuids@)),
{
    create(message, MessageType::Todo(None), now, previous_uuids)
}

/// Makes a reminder due at `due` from the message that the user wrote.
/// There is no reminder for a message that is empty or white space alone.
pub fn create_reminder_command(
    message: &str,
    due: Timestamp,
    now: Timestamp,
    previous_uuids: &Vec<String>,
) -> (r: Option<Jot>)
    requires
        previous_uuids@.len() < 0xFFFF_FFFF,
    ensures
        created(r, message@, KindView::Reminder(due@), now, views(previous_uuids@)),
{
    create(message, MessageType::Reminder(due), now, previous_uuids)
}

} // verus!
