//! Changing the entries of a journal that was read: marking a todo as
//! done, deleting an entry, giving an entry a new message.
//!
//! The entry is named by a word. A number names the entry at that place;
//! any other word names the entry with that id. Of several entries that
//! the word names, the first is meant.

use crate::jot::{tags_in, tags_of, Jot, JotView, KindView, MessageType};
use crate::text::{
    all_in, digits_value, from_chars, is_blank, read_digits, run_end, same_chars, to_chars, trim,
    trim_chars, views, CharClass,
};
use crate::timestamp::Timestamp;
use vstd::prelude::*;

verus! {

/// Why an entry could not be changed.
#[derive(Clone, Copy, Debug, PartialEq, Eq)]
pub enum EditError {
    /// No entry has the place or the id given.
    NotFound,
    /// The entry is no todo, and only a todo can be marked as done.
    NotATodo,
    /// The journal holds a header line that gives no entry, or text before
    /// its first header line: writing its entries again would lose that.
    Unreadable,
}

/// The digits of a word that is a number: the word itself, or what
/// follows its `+`.
pub open spec fn number_digits(word: Seq<char>) -> Seq<char> {
    if word.len() > 0 && word[0] == '+' {
        word.drop_first()
    } else {
        word
    }
}

/// Whether a word is a number: digits, with or without a `+` before them.
pub open spec fn is_number(word: Seq<char>) -> bool {
    number_digits(word).len() > 0 && all_in(number_digits(word), CharClass::Digit)
}

/// Whether the word names the entry: a number names the entry at that
/// place, any other word the entry with that id.
pub open spec fn is_target(e: JotView, word: Seq<char>) -> bool {
    if is_number(word) {
        e.id == digits_value(number_digits(word))
    } else {
        e.uuid == Some(word)
    }
}

/// Where the first entry from `from` on that the word names stands; the
/// number of entries where there is none.
pub open spec fn first_target(entries: Seq<JotView>, word: Seq<char>, from: int) -> int
    decreases entries.len() - from,
{
    if from < 0 || from >= entries.len() {
        entries.len() as int
    } else if is_target(entries[from], word) {
        from
    } else {
        first_target(entries, word, from + 1)
    }
}

/// The first target is an entry that the word names, and no entry before
/// it is named.
pub proof fn lemma_first_target(entries: Seq<JotView>, word: Seq<char>, from: int)
    requires
        0 <= from <= entries.len(),
    ensures
        from <= first_target(entries, word, from) <= entries.len(),
        first_target(entries, word, from) < entries.len() ==> is_target(
            entries[first_target(entries, word, from)],
            word,
        ),
        forall|i: int|
            from <= i < first_target(entries, word, from) ==> !is_target(
                #[trigger] entries[i],
                word,
            ),
    decreases entries.len() - from,
{
    if from < entries.len() && !is_target(entries[from], word) {
        lemma_first_target(entries, word, from + 1);
    }
}

/// What a word that names an entry asks for.
enum Wanted {
    /// The entry at this place; none where the number is too large to be
    /// a place.
    Place(Option<u64>),
    /// The entry with this id.
    Id(Vec<char>),
}

impl Wanted {
    /// Whether the entry is the one asked for by `word`.
    spec fn agrees(self, word: Seq<char>) -> bool {
        match self {
            Wanted::Place(Some(n)) => is_number(word) && n == digits_value(number_digits(word)),
            Wanted::Place(None) => is_number(word) && digits_value(number_digits(word))
                > u64::MAX,
            Wanted::Id(id) => !is_number(word) && id@ == word,
        }
    }
}

/// Reads the word that names an entry.
fn read_wanted(target: &str) -> (r: Wanted)
    ensures
        r.agrees(target@),
{
    let v = to_chars(target);
    let from: usize = if v.len() > 0 && v[0] == '+' {
        1
    } else {
        0
    };
    let end: usize = run_end(&v, from, CharClass::Digit);
    let ghost digits = number_digits(v@);
    proof {
        assert(v@.skip(0) =~= v@);
        assert(v@.skip(1) =~= v@.drop_first());
        assert(digits == v@.skip(from as int));
        if end < v.len() {
            assert(digits[end - from] == v@[end as int]);
        } else {
            assert forall|i: int| 0 <= i < digits.len() implies crate::text::in_class(
                #[trigger] digits[i],
                CharClass::Digit,
            ) by {
                assert(digits[i] == v@[from + i]);
            }
            assert(v@.subrange(from as int, end as int) =~= digits);
        }
    }
    if end == v.len() && end > from {
        Wanted::Place(read_digits(&v, from, end, u64::MAX))
    } else {
        Wanted::Id(v)
    }
}

/// Whether the entry is the one asked for.
fn is_wanted(jot: &Jot, wanted: &Wanted, Ghost(word): Ghost<Seq<char>>) -> (r: bool)
    requires
        wanted.agrees(word),
    ensures
        r == is_target(jot@, word),
{
    match wanted {
        Wanted::Place(Some(n)) => jot.id as u64 == *n,
        Wanted::Place(None) => false,
        Wanted::Id(id) => match &jot.uuid {
            Some(uuid) => {
                let chars = to_chars(uuid.as_str());
                same_chars(&chars, id)
            },
            None => false,
        },
    }
}

/// The place in `jots` of the first entry that the word names.
pub fn find_jot(jots: &Vec<Jot>, target: &str) -> (r: Option<usize>)
    ensures
        match r {
            Some(k) => k == first_target(views(jots@), target@, 0) && k < jots.len(),
            None => first_target(views(jots@), target@, 0) == jots.len(),
        },
{
    let wanted = read_wanted(target);
    let ghost entries = views(jots@);
    let mut i: usize = 0;
    while i < jots.len()
        invariant
            i <= jots.len(),
            entries == views(jots@),
            wanted.agrees(target@),
            first_target(entries, target@, 0) == first_target(entries, target@, i as int),
        decreases jots.len() - i,
    {
        assert(entries[i as int] == jots@[i as int]@);
        if is_wanted(&jots[i], &wanted, Ghost(target@)) {
            return Some(i);
        }
        i += 1;
    }
    None
}

/// The entry marked as done at the time given.
pub open spec fn completed(e: JotView, now: Timestamp) -> JotView {
    JotView { msg_type: KindView::Todo(Some(now@)), ..e }
}

/// The entry with a new message, trimmed, and the tags of that message.
pub open spec fn reworded(e: JotView, message: Seq<char>) -> JotView {
    JotView { message: trim(message), tags: tags_of(trim(message)), ..e }
}

/// What a result of changing entries stands for.
pub open spec fn edit_view(r: Result<Vec<Jot>, EditError>) -> Result<Seq<JotView>, EditError> {
    match r {
        Ok(v) => Ok(views(v@)),
        Err(e) => Err(e),
    }
}

/// The entries after the todo that the word names was marked as done at
/// the time `now`: the first entry that the word names must be there and
/// be a todo; it is done at `now` afterwards, and every other entry is as
/// it was.
pub open spec fn after_complete(entries: Seq<JotView>, word: Seq<char>, now: Timestamp) -> Result<
    Seq<JotView>,
    EditError,
> {
    let k = first_target(entries, word, 0);
    if k >= entries.len() {
        Err(EditError::NotFound)
    } else if entries[k].msg_type is Todo {
        Ok(entries.update(k, completed(entries[k], now)))
    } else {
        Err(EditError::NotATodo)
    }
}

/// The entries after the entry that the word names was deleted: the
/// first entry that the word names must be there; the others follow each
/// other as before.
pub open spec fn after_delete(entries: Seq<JotView>, word: Seq<char>) -> Result<
    Seq<JotView>,
    EditError,
> {
    let k = first_target(entries, word, 0);
    if k >= entries.len() {
        Err(EditError::NotFound)
    } else {
        Ok(entries.remove(k))
    }
}

/// The entries after the entry that the word names was given a new
/// message: the first entry that the word names must be there; a message
/// of white space alone changes nothing.
pub open spec fn after_edit(entries: Seq<JotView>, word: Seq<char>, message: Seq<char>) -> Result<
    Seq<JotView>,
    EditError,
> {
    let k = first_target(entries, word, 0);
    if k >= entries.len() {
        Err(EditError::NotFound)
    } else if trim(message).len() == 0 {
        Ok(entries)
    } else {
        Ok(entries.update(k, reworded(entries[k], message)))
    }
}

/// Puts `jot` at the place `k` of `jots`, where an entry was taken out.
fn put_back(jots: &mut Vec<Jot>, k: usize, jot: Jot, Ghost(before): Ghost<Seq<JotView>>)
    requires
        k <= old(jots).len(),
        k < before.len(),
        views(old(jots)@) == before.remove(k as int),
    ensures
        views(final(jots)@) == before.update(k as int, jot@),
{
    let ghost was = jots@;
    jots.insert(k, jot);
    proof {
        let now = views(jots@);
        let want = before.update(k as int, jot@);
        assert(views(was).len() == was.len());
        assert(before.remove(k as int).len() == before.len() - 1);
        assert(jots@.len() == was.len() + 1);
        assert(now.len() == want.len());
        assert forall|i: int| 0 <= i < now.len() implies now[i] == want[i] by {
            if i < k {
                assert(jots@[i] == was[i]);
                assert(views(was)[i] == was[i]@);
                assert(before.remove(k as int)[i] == before[i]);
            } else if i > k {
                assert(jots@[i] == was[i - 1]);
                assert(views(was)[i - 1] == was[i - 1]@);
                assert(before.remove(k as int)[i - 1] == before[i]);
            }
        }
        assert(now =~= want);
    }
}

/// Marks the todo that the word names as done at the time `now`. A todo
/// that was done before is done at `now` afterwards. The other entries
/// stay as they are, in their order.
pub fn mark_todo_complete_command(jots: Vec<Jot>, target: &str, now: Timestamp) -> (r: Result<
    Vec<Jot>,
    EditError,
>)
    ensures
        edit_view(r) == after_complete(views(jots@), target@, now),
{
    let ghost entries = views(jots@);
    let k: usize = match find_jot(&jots, target) {
        Some(k) => k,
        None => {
            return Err(EditError::NotFound);
        },
    };
    assert(entries[k as int] == jots@[k as int]@);
    let mut jots = jots;
    let mut jot = jots.remove(k);
    assert(views(jots@) =~= entries.remove(k as int));
    match jot.msg_type {
        MessageType::Todo(_) => {
            jot.msg_type = MessageType::Todo(Some(now));
            put_back(&mut jots, k, jot, Ghost(entries));
            Ok(jots)
        },
        _ => Err(EditError::NotATodo),
    }
}

/// Deletes the entry that the word names. The other entries stay as they
/// are, in their order.
pub fn delete_jot(jots: Vec<Jot>, target: &str) -> (r: Result<Vec<Jot>, EditError>)
    ensures
        edit_view(r) == after_delete(views(jots@), target@),
{
    let ghost entries = views(jots@);
    let k: usize = match find_jot(&jots, target) {
        Some(k) => k,
        None => {
            return Err(EditError::NotFound);
        },
    };
    let mut jots = jots;
    let _ = jots.remove(k);
    assert(views(jots@) =~= entries.remove(k as int));
    Ok(jots)
}

/// Gives the entry that the word names the message that the user wrote,
/// trimmed, and the tags of that message. A message that is empty or white
/// space alone changes nothing. The other entries stay as they are, in
/// their order.
pub fn edit_jot_contents(jots: Vec<Jot>, target: &str, message: &str) -> (r: Result<
    Vec<Jot>,
    EditError,
>)
    ensures
        edit_view(r) == after_edit(views(jots@), target@, message@),
{
    let ghost entries = views(jots@);
    let k: usize = match find_jot(&jots, target) {
        Some(k) => k,
        None => {
            return Err(EditError::NotFound);
        },
    };
    let chars = to_chars(message);
    if is_blank(&chars) {
        return Ok(jots);
    }
    assert(entries[k as int] == jots@[k as int]@);
    let mut jots = jots;
    let mut jot = jots.remove(k);
    assert(views(jots@) =~= entries.remove(k as int));
    let trimmed = trim_chars(&chars);
    jot.tags = tags_in(&trimmed);
    jot.message = from_chars(&trimmed);
    put_back(&mut jots, k, jot, Ghost(entries));
    Ok(jots)
}

/// Deleting the entry that a word names leaves one entry less: the
/// entries before the deleted one stay where they were, and those after it
/// move up by one place, each as it was.
pub proof fn lemma_delete_keeps_order(entries: Seq<JotView>, word: Seq<char>)
    requires
        first_target(entries, word, 0) < entries.len(),
    ensures
        after_delete(entries, word) matches Ok(left) && {
            let k = first_target(entries, word, 0);
            &&& 0 <= k < entries.len()
            &&& left.len() == entries.len() - 1
            &&& forall|i: int| 0 <= i < k ==> #[trigger] left[i] == entries[i]
            &&& forall|i: int| k <= i < left.len() ==> #[trigger] left[i] == entries[i + 1]
        },
{
    lemma_first_target(entries, word, 0);
}

} // verus!
