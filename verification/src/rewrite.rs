//! Rewriting the journal so that it is never seen half written.
//!
//! A change is made in five stages. The journal is read (`Decoded`), the
//! change is made to the entries (`Transformed`), the new text is written
//! to a file of its own beside the journal (`StagedToTemp`), and that file
//! takes the place of the journal in one operation (`Committed`). The file
//! beside the journal is removed at the end, also where a stage failed.
//! This module decides what is to be done next; the caller does it and
//! reports whether it went well.

use crate::commands::edit::{
    after_complete, after_delete, after_edit, delete_jot, edit_jot_contents, edit_view,
    mark_todo_complete_command, EditError,
};
use crate::jot::{decode, encode_jots, journal_text, read_journal, readable, Jot, JotView};
use crate::round_trip::{clean, renumbered, well_read};
use crate::text::{lemma_trim_fixed, views};
use crate::timestamp::Timestamp;
use vstd::prelude::*;

verus! {

/// A change to one entry of the journal.
#[derive(Clone, Debug, PartialEq, Eq)]
pub enum Change {
    /// Mark the todo that `target` names as done at the time `now`.
    Complete { target: String, now: Timestamp },
    /// Give the entry that `target` names the message `message`.
    Edit { target: String, message: String },
    /// Delete the entry that `target` names.
    Delete { target: String },
}

/// The entries after the change.
pub open spec fn changed(entries: Seq<JotView>, change: Change) -> Result<Seq<JotView>, EditError> {
    match change {
        Change::Complete { target, now } => after_complete(entries, target@, now),
        Change::Edit { target, message } => after_edit(entries, target@, message@),
        Change::Delete { target } => after_delete(entries, target@),
    }
}

/// The text of the journal after the change: the entries are read, the
/// change is made, and all the entries are written again. There is none
/// for a journal whose entries do not hold all that it holds.
pub open spec fn rewritten(journal: Seq<char>, change: Change) -> Result<Seq<char>, EditError> {
    if !readable(journal) {
        Err(EditError::Unreadable)
    } else {
        match changed(decode(journal), change) {
            Ok(entries) => Ok(journal_text(entries)),
            Err(e) => Err(e),
        }
    }
}

/// Entries that were read are well read after a change as well.
pub proof fn lemma_changed_well_read(entries: Seq<JotView>, change: Change)
    requires
        forall|i: int| 0 <= i < entries.len() ==> well_read(#[trigger] entries[i]),
    ensures
        changed(entries, change) matches Ok(after) ==> forall|i: int|
            0 <= i < after.len() ==> well_read(#[trigger] after[i]),
{
    match changed(entries, change) {
        Ok(after) => {
            match change {
                Change::Complete { target, now } => {
                    crate::commands::edit::lemma_first_target(entries, target@, 0);
                    let k = crate::commands::edit::first_target(entries, target@, 0);
                    assert forall|i: int| 0 <= i < after.len() implies well_read(
                        #[trigger] after[i],
                    ) by {
                        assert(well_read(entries[i]));
                    }
                },
                Change::Edit { target, message } => {
                    crate::commands::edit::lemma_first_target(entries, target@, 0);
                    lemma_trim_fixed(message@);
                    assert forall|i: int| 0 <= i < after.len() implies well_read(
                        #[trigger] after[i],
                    ) by {
                        assert(well_read(entries[i]));
                    }
                },
                Change::Delete { target } => {
                    crate::commands::edit::lemma_first_target(entries, target@, 0);
                    let k = crate::commands::edit::first_target(entries, target@, 0);
                    assert forall|i: int| 0 <= i < after.len() implies well_read(
                        #[trigger] after[i],
                    ) by {
                        if i < k {
                            assert(after[i] == entries[i]);
                            assert(well_read(entries[i]));
                        } else {
                            assert(after[i] == entries[i + 1]);
                            assert(well_read(entries[i + 1]));
                        }
                    }
                },
            }
        },
        Err(_) => {},
    }
}

/// Makes the change to the entries.
pub fn apply_change(jots: Vec<Jot>, change: &Change) -> (r: Result<Vec<Jot>, EditError>)
    ensures
        edit_view(r) == changed(views(jots@), *change),
{
    match change {
        Change::Complete { target, now } => mark_todo_complete_command(jots, target.as_str(), *now),
        Change::Edit { target, message } => edit_jot_contents(
            jots,
            target.as_str(),
            message.as_str(),
        ),
        Change::Delete { target } => delete_jot(jots, target.as_str()),
    }
}

/// How far a rewrite has come.
#[derive(Clone, Copy, Debug, PartialEq, Eq, Structural)]
pub enum RewriteState {
    /// Nothing was done yet.
    Idle,
    /// The journal was read.
    Decoded,
    /// The change was made to the entries; no file was touched.
    Transformed,
    /// The new text stands in the file beside the journal.
    StagedToTemp,
    /// The new text has taken the place of the journal.
    Committed,
    /// A stage failed before the journal was replaced.
    Aborted,
}

/// What is to be done to the files next.
#[derive(Clone, Copy, Debug, PartialEq, Eq, Structural)]
pub enum FileStep {
    /// Write the new text to a new file beside the journal.
    WriteTemp,
    /// Put that file in the place of the journal, in one operation.
    ReplaceJournal,
    /// Remove the file beside the journal, if it is there.
    RemoveTemp,
}

/// A rewrite under way.
#[derive(Clone, Debug, PartialEq, Eq)]
pub struct Rewrite {
    /// How far the rewrite has come.
    pub state: RewriteState,
    /// The text that the journal is to hold.
    pub text: String,
    /// Whether a file may stand beside the journal.
    pub temp: bool,
}

/// The step that a rewrite asks for, if any: the stages in their order,
/// and the removal of the file beside the journal once the journal was
/// replaced or a stage failed.
pub open spec fn step_of(state: RewriteState, temp: bool) -> Option<FileStep> {
    match state {
        RewriteState::Transformed => Some(FileStep::WriteTemp),
        RewriteState::StagedToTemp => Some(FileStep::ReplaceJournal),
        RewriteState::Committed | RewriteState::Aborted => if temp {
            Some(FileStep::RemoveTemp)
        } else {
            None
        },
        _ => None,
    }
}

/// The state after the step that a rewrite asked for went well (`done`)
/// or failed.
pub open spec fn state_after(state: RewriteState, done: bool) -> RewriteState {
    match state {
        RewriteState::Transformed => if done {
            RewriteState::StagedToTemp
        } else {
            RewriteState::Aborted
        },
        RewriteState::StagedToTemp => if done {
            RewriteState::Committed
        } else {
            RewriteState::Aborted
        },
        other => other,
    }
}

/// Whether a file may stand beside the journal after the step.
pub open spec fn temp_after(state: RewriteState, temp: bool) -> bool {
    match state {
        RewriteState::Transformed | RewriteState::StagedToTemp => true,
        RewriteState::Committed | RewriteState::Aborted => false,
        _ => temp,
    }
}

impl Rewrite {
    /// Starts a rewrite: reads the entries from the text of the journal,
    /// makes the change and writes the entries as the new text. No file is
    /// touched. A journal that cannot be read whole, and a change that
    /// cannot be made, end the rewrite at once. The new text is read as the
    /// changed entries, numbered in their order, where the message of each
    /// is clean.
    pub fn begin(journal: &str, change: &Change) -> (r: Result<Rewrite, EditError>)
        ensures
            match rewritten(journal@, *change) {
                Ok(text) => r matches Ok(w) && w.state == RewriteState::Transformed && w.text@
                    == text && !w.temp,
                Err(e) => r matches Err(x) && x == e,
            },
            r matches Ok(w) ==> changed(decode(journal@), *change) matches Ok(after) && ((forall|
                i: int,
            |
                0 <= i < after.len() ==> clean((#[trigger] after[i]).message)) ==> decode(w.text@)
                == renumbered(after, 0)),
    {
        let jots = match read_journal(journal) {
            Some(jots) => jots,
            None => {
                return Err(EditError::Unreadable);
            },
        };
        proof {
            lemma_changed_well_read(views(jots@), *change);
        }
        match apply_change(jots, change) {
            Ok(new) => {
                let text = encode_jots(&new);
                proof {
                    let after = views(new@);
                    if forall|i: int| 0 <= i < after.len() ==> clean((#[trigger] after[i]).message) {
                        assert forall|i: int| 0 <= i < new.len() implies crate::round_trip::lossless(
                            #[trigger] new[i]@,
                        ) by {
                            assert(after[i] == new[i]@);
                            assert(well_read(after[i]));
                            assert(clean(after[i].message));
                        }
                    }
                }
                Ok(Rewrite { state: RewriteState::Transformed, text, temp: false })
            },
            Err(e) => Err(e),
        }
    }

    /// What is to be done to the files next; `None` when the rewrite is
    /// over.
    pub fn next_step(&self) -> (r: Option<FileStep>)
        ensures
            r == step_of(self.state, self.temp),
    {
        match self.state {
            RewriteState::Transformed => Some(FileStep::WriteTemp),
            RewriteState::StagedToTemp => Some(FileStep::ReplaceJournal),
            RewriteState::Committed | RewriteState::Aborted => if self.temp {
                Some(FileStep::RemoveTemp)
            } else {
                None
            },
            _ => None,
        }
    }

    /// Takes note of how the step that was asked for ended.
    pub fn advance(&mut self, done: bool)
        ensures
            final(self).state == state_after(old(self).state, done),
            final(self).temp == temp_after(old(self).state, old(self).temp),
            final(self).text == old(self).text,
    {
        match self.state {
            RewriteState::Transformed => {
                self.state = if done {
                    RewriteState::StagedToTemp
                } else {
                    RewriteState::Aborted
                };
                self.temp = true;
            },
            RewriteState::StagedToTemp => {
                self.state = if done {
                    RewriteState::Committed
                } else {
                    RewriteState::Aborted
                };
                self.temp = true;
            },
            RewriteState::Committed | RewriteState::Aborted => {
                self.temp = false;
            },
            _ => {},
        }
    }

    /// Whether the journal holds the new text.
    pub fn is_committed(&self) -> (r: bool)
        ensures
            r == (self.state == RewriteState::Committed),
    {
        match self.state {
            RewriteState::Committed => true,
            _ => false,
        }
    }
}

/// The two files of a rewrite: what the journal holds, and what the file
/// beside it holds if it is there.
pub struct Files {
    pub journal: Seq<char>,
    pub temp: Option<Seq<char>>,
}

/// The files after a step. A step that went well did its work: writing
/// leaves the text in the file beside the journal, replacing moves that
/// file into the place of the journal, removing takes it away. A step that
/// failed never touched the journal; a write that failed may leave
/// anything (`partial`) beside it.
pub open spec fn files_after(
    files: Files,
    step: FileStep,
    text: Seq<char>,
    done: bool,
    partial: Option<Seq<char>>,
) -> Files {
    match step {
        FileStep::WriteTemp => Files {
            journal: files.journal,
            temp: if done {
                Some(text)
            } else {
                partial
            },
        },
        FileStep::ReplaceJournal => match files.temp {
            Some(staged) => if done {
                Files { journal: staged, temp: None }
            } else {
                files
            },
            None => files,
        },
        FileStep::RemoveTemp => if done {
            Files { journal: files.journal, temp: None }
        } else {
            files
        },
    }
}

/// What holds of the files in each state: the journal holds the new text
/// once the rewrite is committed and what it held at the start in every
/// other state; when the new text is staged, it stands whole beside the
/// journal.
pub open spec fn files_safe(
    state: RewriteState,
    files: Files,
    at_start: Seq<char>,
    text: Seq<char>,
) -> bool {
    match state {
        RewriteState::Committed => files.journal == text,
        RewriteState::StagedToTemp => files.journal == at_start && files.temp == Some(text),
        _ => files.journal == at_start,
    }
}

/// Whatever step a rewrite asks for and however the step ends, the
/// journal holds what it held at the start until the rewrite is committed,
/// and the whole new text from then on.
pub proof fn lemma_rewrite_is_safe(
    state: RewriteState,
    temp: bool,
    files: Files,
    at_start: Seq<char>,
    text: Seq<char>,
    done: bool,
    partial: Option<Seq<char>>,
)
    requires
        files_safe(state, files, at_start, text),
        step_of(state, temp) is Some,
    ensures
        files_safe(
            state_after(state, done),
            files_after(files, step_of(state, temp).unwrap(), text, done, partial),
            at_start,
            text,
        ),
        files_after(files, step_of(state, temp).unwrap(), text, done, partial).journal == at_start
            || (state_after(state, done) == RewriteState::Committed && files_after(
            files,
            step_of(state, temp).unwrap(),
            text,
            done,
            partial,
        ).journal == text),
{
}

} // verus!
