//! Looking at the entries of the journal.

use crate::jot::{distinct, lemma_distinct, Jot, JotView, KindView, MessageType};
use crate::text::{append_str, from_chars, is_word, lemma_views_push, lower, to_chars, to_lower, views};
use crate::timestamp::Timestamp;
use crate::utils::{
    contains_text, duration_parts, pluralize_time_unit, pluralized, pretty_duration, unit_name,
};
use vstd::prelude::*;

verus! {

/// The ids that the entries have, in the order of the entries.
pub open spec fn ids_of(entries: Seq<JotView>) -> Seq<Seq<char>>
    decreases entries.len(),
{
    if entries.len() == 0 {
        Seq::empty()
    } else {
        match entries.last().uuid {
            Some(u) => ids_of(entries.drop_last()).push(u),
            None => ids_of(entries.drop_last()),
        }
    }
}

/// The ids in use: that of every entry that has one, each id once, in
/// the order in which the ids first occur.
pub fn get_all_uuids(jots: &Vec<Jot>) -> (r: Vec<String>)
    ensures
        views(r@) == distinct(ids_of(views(jots@))),
        forall|i: int, j: int| 0 <= i < j < r.len() ==> #[trigger] r[i]@ != #[trigger] r[j]@,
        forall|k: int|
            0 <= k < jots.len() ==> ((#[trigger] jots[k]@).uuid matches Some(u) ==> views(
                r@,
            ).contains(u)),
{
    let ghost entries = views(jots@);
    let mut r: Vec<String> = Vec::new();
    let mut i: usize = 0;
    proof {
        assert(entries.take(0) =~= Seq::<JotView>::empty());
        assert(views(r@) =~= Seq::<Seq<char>>::empty());
    }
    while i < jots.len()
        invariant
            i <= jots.len(),
            entries == views(jots@),
            views(r@) == distinct(ids_of(entries.take(i as int))),
        decreases jots.len() - i,
    {
        proof {
            assert(entries.take(i + 1).drop_last() =~= entries.take(i as int));
            assert(entries.take(i + 1).last() == jots@[i as int]@);
        }
        match &jots[i].uuid {
            Some(u) => {
                proof {
                    let before = ids_of(entries.take(i as int));
                    assert(before.push(u@).drop_last() =~= before);
                }
                if !contains_text(&r, u) {
                    let id = u.clone();
                    proof {
                        lemma_views_push(r@, id);
                    }
                    r.push(id);
                }
            },
            None => {},
        }
        i += 1;
    }
    proof {
        assert(entries.take(jots.len() as int) =~= entries);
        let ids = ids_of(entries);
        lemma_distinct(ids);
        assert forall|i: int, j: int| 0 <= i < j < r.len() implies #[trigger] r[i]@
            != #[trigger] r[j]@ by {
            assert(views(r@)[i] == r[i]@);
            assert(views(r@)[j] == r[j]@);
        }
        assert forall|k: int| 0 <= k < jots.len() implies ((#[trigger] jots[k]@).uuid matches Some(
            u,
        ) ==> views(r@).contains(u)) by {
            match jots[k]@.uuid {
                Some(u) => {
                    assert(entries[k] == jots[k]@);
                    lemma_ids_of(entries, k);
                    let at = choose|at: int| 0 <= at < ids.len() && ids[at] == u;
                    assert(distinct(ids).contains(ids[at]));
                },
                None => {},
            }
        }
    }
    r
}

/// The id of an entry is among the ids of the entries.
pub proof fn lemma_ids_of(entries: Seq<JotView>, k: int)
    requires
        0 <= k < entries.len(),
        entries[k].uuid is Some,
    ensures
        ids_of(entries).contains(entries[k].uuid.unwrap()),
    decreases entries.len(),
{
    let before = entries.drop_last();
    let u = entries[k].uuid.unwrap();
    if k == entries.len() - 1 {
        let ids = ids_of(entries);
        assert(ids == ids_of(before).push(u));
        assert(ids[ids.len() - 1] == u);
    } else {
        assert(before[k] == entries[k]);
        lemma_ids_of(before, k);
        let at = choose|at: int| 0 <= at < ids_of(before).len() && ids_of(before)[at] == u;
        assert(ids_of(entries)[at] == u);
    }
}

/// The pattern for a loose search: the characters of the search in small
/// letters, with `[A-Za-z0-9]*?` between each two, so that letters and
/// digits may stand between them.
pub open spec fn loose_pattern(search: Seq<char>) -> Seq<char>
    decreases search.len(),
{
    if search.len() == 0 {
        Seq::empty()
    } else if search.len() == 1 {
        seq![lower(search[0])]
    } else {
        loose_pattern(search.drop_last()) + "[A-Za-z0-9]*?"@ + seq![lower(search.last())]
    }
}

/// Turns what the user typed into the pattern of a loose search.
pub fn search_string_to_regex(search: &str) -> (r: String)
    ensures
        r@ == loose_pattern(search@),
{
    let v = to_chars(search);
    let mut out: Vec<char> = Vec::new();
    let mut i: usize = 0;
    assert(v@.take(0) =~= Seq::<char>::empty());
    while i < v.len()
        invariant
            i <= v.len(),
            out@ == loose_pattern(v@.take(i as int)),
        decreases v.len() - i,
    {
        proof {
            assert(v@.take(i + 1).drop_last() =~= v@.take(i as int));
            assert(v@.take(i + 1).last() == v@[i as int]);
        }
        if i > 0 {
            append_str(&mut out, "[A-Za-z0-9]*?");
        }
        out.push(to_lower(v[i]));
        proof {
            if i == 0 {
                assert(out@ =~= seq![lower(v@[0])]);
            }
        }
        i += 1;
    }
    assert(v@.take(v.len() as int) =~= v@);
    from_chars(&out)
}

/// Whether a command shows entries of the kind given: `cat` shows every
/// kind, `notes` the notes, `todos` the todos and `reminders` the
/// reminders.
pub open spec fn kind_shown(kind: KindView, read_cmd: Seq<char>) -> bool {
    if read_cmd == "cat"@ {
        true
    } else {
        match kind {
            KindView::Note => read_cmd == "notes"@,
            KindView::Todo(_) => read_cmd == "todos"@,
            KindView::Reminder(_) => read_cmd == "reminders"@,
        }
    }
}

/// Whether a command shows the entry: it must be of a kind that the
/// command shows and have every one of the tags asked for.
pub open spec fn is_shown(e: JotView, read_cmd: Seq<char>, tags: Seq<Seq<char>>) -> bool {
    kind_shown(e.msg_type, read_cmd) && forall|i: int|
        0 <= i < tags.len() ==> e.tags.contains(#[trigger] tags[i])
}

/// The places of the first `n` entries that are shown, in their order.
pub open spec fn shown(entries: Seq<JotView>, read_cmd: Seq<char>, tags: Seq<Seq<char>>, n: int)
    -> Seq<usize>
    decreases n,
{
    if n <= 0 {
        Seq::empty()
    } else if is_shown(entries[n - 1], read_cmd, tags) {
        shown(entries, read_cmd, tags, n - 1).push((n - 1) as usize)
    } else {
        shown(entries, read_cmd, tags, n - 1)
    }
}

/// Whether the entry has every one of the tags.
fn has_tags(jot: &Jot, tags: &Vec<String>) -> (r: bool)
    ensures
        r == forall|i: int| 0 <= i < tags.len() ==> jot@.tags.contains(#[trigger] views(tags@)[i]),
{
    let ghost wanted = views(tags@);
    let mut i: usize = 0;
    while i < tags.len()
        invariant
            i <= tags.len(),
            wanted == views(tags@),
            forall|j: int| 0 <= j < i ==> jot@.tags.contains(#[trigger] wanted[j]),
        decreases tags.len() - i,
    {
        assert(wanted[i as int] == tags@[i as int]@);
        if !contains_text(&jot.tags, &tags[i]) {
            return false;
        }
        i += 1;
    }
    true
}

/// Whether the command shows entries of the kind of `jot`.
fn shows_kind(jot: &Jot, read_cmd: &Vec<char>) -> (r: bool)
    ensures
        r == kind_shown(jot@.msg_type, read_cmd@),
{
    if is_word(read_cmd, "cat") {
        return true;
    }
    match jot.msg_type {
        MessageType::Note => is_word(read_cmd, "notes"),
        MessageType::Todo(_) => is_word(read_cmd, "todos"),
        MessageType::Reminder(_) => is_word(read_cmd, "reminders"),
    }
}

/// The places in `jots` of the entries that the command shows, in the
/// order in which it shows them: the entries of the kind that the command
/// is for that have all the tags given, oldest first, or newest first
/// where `reverse` is set.
pub fn display(jots: &Vec<Jot>, read_cmd: &str, tags: &Vec<String>, reverse: bool) -> (r: Vec<
    usize,
>)
    ensures
        !reverse ==> r@ == shown(views(jots@), read_cmd@, views(tags@), jots.len() as int),
        reverse ==> r@ == shown(views(jots@), read_cmd@, views(tags@), jots.len() as int).reverse(),
{
    let ghost entries = views(jots@);
    let cmd = to_chars(read_cmd);
    let mut picked: Vec<usize> = Vec::new();
    let mut i: usize = 0;
    while i < jots.len()
        invariant
            i <= jots.len(),
            entries == views(jots@),
            cmd@ == read_cmd@,
            picked@ == shown(entries, read_cmd@, views(tags@), i as int),
        decreases jots.len() - i,
    {
        assert(entries[i as int] == jots@[i as int]@);
        if shows_kind(&jots[i], &cmd) && has_tags(&jots[i], tags) {
            picked.push(i);
        }
        i += 1;
    }
    if !reverse {
        return picked;
    }
    let mut turned: Vec<usize> = Vec::new();
    let mut k: usize = picked.len();
    while k > 0
        invariant
            k <= picked.len(),
            turned.len() == picked.len() - k,
            forall|j: int| 0 <= j < turned.len() ==> turned@[j] == picked@[picked.len() - 1 - j],
        decreases k,
    {
        k -= 1;
        turned.push(picked[k]);
    }
    assert(turned@ =~= picked@.reverse());
    turned
}

/// What the line above an entry says of its age.
#[derive(Clone, Debug, PartialEq, Eq)]
pub struct Heading {
    /// Whether the entry is a todo that is done; the age is then counted
    /// from the time it was done.
    pub completed: bool,
    /// How many units ago.
    pub amount: i64,
    /// The unit, with an `s` unless the amount is one.
    pub unit: String,
}

/// The seconds from the time that the age of an entry is counted from to
/// `now`: from the time a todo was done, and from the time any other
/// entry was made.
pub open spec fn age_seconds(e: JotView, now: Timestamp) -> int {
    match e.msg_type {
        KindView::Todo(Some(done)) => now@.secs - done.secs,
        _ => now@.secs - e.datetime.secs,
    }
}

/// What the line above the entry says of its age at the time `now`: the
/// age in its largest whole unit.
pub fn heading(jot: &Jot, now: Timestamp) -> (r: Heading)
    ensures
        r.completed == (jot@.msg_type matches KindView::Todo(Some(_))),
        r.amount == duration_parts(age_seconds(jot@, now)).0,
        r.unit@ == pluralized(
            duration_parts(age_seconds(jot@, now)).0,
            unit_name(duration_parts(age_seconds(jot@, now)).1),
        ),
{
    let (completed, seconds): (bool, i64) = match jot.msg_type {
        MessageType::Todo(Some(done)) => (true, now.seconds_since(&done)),
        _ => (false, now.seconds_since(&jot.datetime)),
    };
    let (amount, unit) = pretty_duration(seconds);
    Heading { completed, amount, unit: pluralize_time_unit(amount, unit) }
}

/// The largest of the first `n` widths; 0 where there is none.
pub open spec fn widest(widths: Seq<usize>, n: int) -> int
    decreases n,
{
    if n <= 0 {
        0
    } else if widths[n - 1] > widest(widths, n - 1) {
        widths[n - 1] as int
    } else {
        widest(widths, n - 1)
    }
}

/// The lengths of the two bars of the frame drawn round an entry, from
/// the widths of the lines of the message and the width of the heading.
/// The frame is as wide as the widest of them. The upper bar fills what
/// the heading and the two corners beside it leave of that width; the
/// lower bar is as long as the heading and the upper bar together.
pub fn frame_bars(line_widths: &Vec<usize>, header_width: usize) -> (r: (usize, usize))
    ensures
        ({
            let lines = widest(line_widths@, line_widths.len() as int);
            let width = if lines > header_width {
                lines
            } else {
                header_width as int
            };
            &&& r.0 == if width - header_width - 2 > 0 {
                width - header_width - 2
            } else {
                0
            }
            &&& r.1 == r.0 + header_width
        }),
{
    let mut width: usize = 0;
    let mut i: usize = 0;
    while i < line_widths.len()
        invariant
            i <= line_widths.len(),
            width == widest(line_widths@, i as int),
        decreases line_widths.len() - i,
    {
        if line_widths[i] > width {
            width = line_widths[i];
        }
        i += 1;
    }
    if header_width > width {
        width = header_width;
    }
    let upper: usize = if width - header_width > 2 {
        width - header_width - 2
    } else {
        0
    };
    (upper, upper + header_width)
}

} // verus!
