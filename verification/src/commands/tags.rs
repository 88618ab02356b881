//! Counting the tags of a journal.

use crate::jot::{distinct, Jot, JotView, KindView, MessageType};
use crate::text::{lemma_views_push, views};
use crate::utils::contains_text;
use vstd::prelude::*;

verus! {

/// One row of the table of tags: a tag and the number of notes, todos and
/// reminders that have it.
#[derive(Clone, Debug, PartialEq, Eq)]
pub struct TagCount {
    pub tag: String,
    pub notes: usize,
    pub todos: usize,
    pub reminders: usize,
}

/// What a [`TagCount`] stands for.
pub struct TagCountView {
    pub tag: Seq<char>,
    pub notes: nat,
    pub todos: nat,
    pub reminders: nat,
}

impl View for TagCount {
    type V = TagCountView;

    open spec fn view(&self) -> TagCountView {
        TagCountView {
            tag: self.tag@,
            notes: self.notes as nat,
            todos: self.todos as nat,
            reminders: self.reminders as nat,
        }
    }
}

/// The kinds of entry that are counted apart.
#[derive(Clone, Copy, Debug, PartialEq, Eq, Structural)]
pub enum Counted {
    Notes,
    Todos,
    Reminders,
}

/// Whether an entry of the kind given is counted under `counted`.
pub open spec fn counts_as(kind: KindView, counted: Counted) -> bool {
    match kind {
        KindView::Note => counted == Counted::Notes,
        KindView::Todo(_) => counted == Counted::Todos,
        KindView::Reminder(_) => counted == Counted::Reminders,
    }
}

/// How many of the first `n` entries are counted under `counted` and have
/// the tag.
pub open spec fn tag_count(entries: Seq<JotView>, counted: Counted, tag: Seq<char>, n: int) -> nat
    decreases n,
{
    if n <= 0 {
        0
    } else if counts_as(entries[n - 1].msg_type, counted) && entries[n - 1].tags.contains(tag) {
        tag_count(entries, counted, tag, n - 1) + 1
    } else {
        tag_count(entries, counted, tag, n - 1)
    }
}

/// The tags of the first `n` entries, one entry after the other.
pub open spec fn tags_seen(entries: Seq<JotView>, n: int) -> Seq<Seq<char>>
    decreases n,
{
    if n <= 0 {
        Seq::empty()
    } else {
        tags_seen(entries, n - 1) + entries[n - 1].tags
    }
}

/// The order of texts: character by character, a smaller character or
/// the end of the text first.
pub open spec fn text_le(a: Seq<char>, b: Seq<char>) -> bool
    decreases a.len(),
{
    if a.len() == 0 {
        true
    } else if b.len() == 0 {
        false
    } else if a[0] != b[0] {
        (a[0] as u32) < (b[0] as u32)
    } else {
        text_le(a.drop_first(), b.drop_first())
    }
}

/// The tags of the rows, in the order of the rows.
pub open spec fn row_tags(rows: Seq<TagCountView>) -> Seq<Seq<char>> {
    Seq::new(rows.len(), |i: int| rows[i].tag)
}

/// `itertools::sorted`, collected into a vector: the same strings in
/// ascending order. Strings are ordered by their bytes, which for UTF-8 is
/// the order of their characters.
#[verifier::external_body]
fn sorted_texts(v: Vec<String>) -> (r: Vec<String>)
    ensures
        views(r@).to_multiset() == views(v@).to_multiset(),
        forall|i: int, j: int| 0 <= i < j < r.len() ==> text_le(#[trigger] r[i]@, #[trigger] r[j]@),
{
    itertools::sorted(v).collect()
}

/// Whether the entry is counted under `counted`.
fn is_counted(jot: &Jot, counted: Counted) -> (r: bool)
    ensures
        r == counts_as(jot@.msg_type, counted),
{
    match jot.msg_type {
        MessageType::Note => counted == Counted::Notes,
        MessageType::Todo(_) => counted == Counted::Todos,
        MessageType::Reminder(_) => counted == Counted::Reminders,
    }
}

/// How many of the entries are counted under `counted` and have the tag.
fn count_tag(jots: &Vec<Jot>, counted: Counted, tag: &String) -> (r: usize)
    ensures
        r == tag_count(views(jots@), counted, tag@, jots.len() as int),
{
    let ghost entries = views(jots@);
    let mut r: usize = 0;
    let mut i: usize = 0;
    while i < jots.len()
        invariant
            i <= jots.len(),
            entries == views(jots@),
            r == tag_count(entries, counted, tag@, i as int),
            r <= i,
        decreases jots.len() - i,
    {
        assert(entries[i as int] == jots@[i as int]@);
        if is_counted(&jots[i], counted) && contains_text(&jots[i].tags, tag) {
            r += 1;
        }
        i += 1;
    }
    r
}

/// The tags of the entries, each once, in the order they first occur.
fn collect_tags(jots: &Vec<Jot>) -> (r: Vec<String>)
    ensures
        views(r@) == distinct(tags_seen(views(jots@), jots.len() as int)),
{
    let ghost entries = views(jots@);
    let mut all: Vec<String> = Vec::new();
    let mut i: usize = 0;
    proof {
        assert(views(all@) =~= Seq::<Seq<char>>::empty());
    }
    while i < jots.len()
        invariant
            i <= jots.len(),
            entries == views(jots@),
            views(all@) == distinct(tags_seen(entries, i as int)),
        decreases jots.len() - i,
    {
        let tags = &jots[i].tags;
        let ghost mine = views(tags@);
        let ghost before = tags_seen(entries, i as int);
        let mut j: usize = 0;
        proof {
            assert(entries[i as int] == jots@[i as int]@);
            assert(before + mine.take(0) =~= before);
        }
        while j < tags.len()
            invariant
                j <= tags.len(),
                mine == views(tags@),
                views(all@) == distinct(before + mine.take(j as int)),
            decreases tags.len() - j,
        {
            let ghost seen = before + mine.take(j as int);
            proof {
                assert(mine[j as int] == tags@[j as int]@);
                assert(before + mine.take(j + 1) =~= seen.push(mine[j as int]));
                assert(seen.push(mine[j as int]).drop_last() =~= seen);
            }
            if !contains_text(&all, &tags[j]) {
                let tag = tags[j].clone();
                proof {
                    lemma_views_push(all@, tag);
                }
                all.push(tag);
            }
            j += 1;
        }
        proof {
            assert(mine.take(tags.len() as int) =~= mine);
        }
        i += 1;
    }
    all
}

/// The table of tags: a row for every tag that an entry has, the rows in
/// the order of their tags, each with the number of notes, of todos and of
/// reminders that have the tag.
pub fn tags_command(jots: &Vec<Jot>) -> (r: Vec<TagCount>)
    ensures
        row_tags(views(r@)).to_multiset() == distinct(
            tags_seen(views(jots@), jots.len() as int),
        ).to_multiset(),
        forall|i: int, j: int|
            0 <= i < j < r.len() ==> text_le(#[trigger] r[i]@.tag, #[trigger] r[j]@.tag),
        forall|i: int|
            0 <= i < r.len() ==> {
                let row = #[trigger] r[i]@;
                let n = jots.len() as int;
                &&& row.notes == tag_count(views(jots@), Counted::Notes, row.tag, n)
                &&& row.todos == tag_count(views(jots@), Counted::Todos, row.tag, n)
                &&& row.reminders == tag_count(views(jots@), Counted::Reminders, row.tag, n)
            },
{
    let all = collect_tags(jots);
    let tags = sorted_texts(all);
    let mut rows: Vec<TagCount> = Vec::new();
    let mut i: usize = 0;
    while i < tags.len()
        invariant
            i <= tags.len(),
            rows.len() == i,
            forall|k: int| 0 <= k < i ==> (#[trigger] rows[k]@).tag == tags[k]@,
            forall|k: int|
                0 <= k < i ==> {
                    let row = #[trigger] rows[k]@;
                    let n = jots.len() as int;
                    &&& row.notes == tag_count(views(jots@), Counted::Notes, row.tag, n)
                    &&& row.todos == tag_count(views(jots@), Counted::Todos, row.tag, n)
                    &&& row.reminders == tag_count(views(jots@), Counted::Reminders, row.tag, n)
                },
        decreases tags.len() - i,
    {
        let tag = tags[i].clone();
        let row = TagCount {
            notes: count_tag(jots, Counted::Notes, &tag),
            todos: count_tag(jots, Counted::Todos, &tag),
            reminders: count_tag(jots, Counted::Reminders, &tag),
            tag,
        };
        rows.push(row);
        i += 1;
    }
    proof {
        assert(row_tags(views(rows@)) =~= views(tags@));
    }
    rows
}

} // verus!
