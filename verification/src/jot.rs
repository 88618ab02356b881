//! The entries of the journal and the text they are kept as.
//!
//! An entry is written as a header line, `[` then the time it was made,
//! then words that say what kind of entry it is and which id it has, then
//! `]`; the message follows on the next lines, and two line feeds end the
//! entry.

use crate::text::{
    all_in, append_chars, append_str, from_chars, has_prefix, is_ascii_letter, is_letter, is_word, join,
    join_lines, lemma_run_len_bounds, lemma_views_push, lines, run_end, run_len, run_start,
    split_lines, split_words, starts_with, sub_chars, tail_run_len, to_chars, tokens, trim,
    trim_chars, views, CharClass,
};
use crate::timestamp::{
    has_timestamp_shape, text_time, time_ok, time_text, timestamp_shape, TimeView, Timestamp,
};
use crate::round_trip::{
    read_in_order, appended, kind_ok, lemma_append, line_end_for, lemma_decode_lines, lemma_entry_round_trip, lemma_round_trip, lossless, renumbered,
    storable, well_read,
};
use crate::utils::{contains_text, fresh_id, generate_new_uuid, lemma_fresh_id_plain};
use vstd::prelude::*;

verus! {

/// What kind of entry a jot is.
#[derive(Clone, Copy, Debug, PartialEq, Eq)]
pub enum MessageType {
    /// A plain note.
    Note,
    /// Something to do, with the time it was done once it is.
    Todo(Option<Timestamp>),
    /// Something to be reminded of at the time given.
    Reminder(Timestamp),
}

/// What a [`MessageType`] stands for.
pub enum KindView {
    Note,
    Todo(Option<TimeView>),
    Reminder(TimeView),
}

impl View for MessageType {
    type V = KindView;

    open spec fn view(&self) -> KindView {
        match *self {
            MessageType::Note => KindView::Note,
            MessageType::Todo(None) => KindView::Todo(None),
            MessageType::Todo(Some(t)) => KindView::Todo(Some(t@)),
            MessageType::Reminder(t) => KindView::Reminder(t@),
        }
    }
}

/// One entry of the journal.
#[derive(Clone, Debug, PartialEq, Eq)]
pub struct Jot {
    /// When the entry was made.
    pub datetime: Timestamp,
    /// The text of the entry, without white space at either end.
    pub message: String,
    /// The kind of entry.
    pub msg_type: MessageType,
    /// The place of the entry in the journal it was read from, counted
    /// from 1; 0 for an entry that was not read from a journal.
    pub id: usize,
    /// The id that the entry keeps for good, if it has one.
    pub uuid: Option<String>,
    /// The tags in the message, each once, in the order they first occur.
    pub tags: Vec<String>,
}

/// What a [`Jot`] stands for.
pub struct JotView {
    pub datetime: TimeView,
    pub message: Seq<char>,
    pub msg_type: KindView,
    pub id: nat,
    pub uuid: Option<Seq<char>>,
    pub tags: Seq<Seq<char>>,
}

impl View for Jot {
    type V = JotView;

    open spec fn view(&self) -> JotView {
        JotView {
            datetime: self.datetime@,
            message: self.message@,
            msg_type: self.msg_type@,
            id: self.id as nat,
            uuid: match self.uuid {
                Some(u) => Some(u@),
                None => None,
            },
            tags: views(self.tags@),
        }
    }
}

/// Every match of `@`, a letter, then letters, digits and `_` as far as
/// they go, found from left to right; a match starts where the one before
/// it ended at the earliest.
pub open spec fn find_tags(s: Seq<char>) -> Seq<Seq<char>>
    decreases s.len(),
{
    if s.len() < 2 {
        Seq::empty()
    } else if s[0] == '@' && is_letter(s[1]) {
        let n = 2 + run_len(s.skip(2), CharClass::TagTail);
        proof {
            lemma_run_len_bounds(s.skip(2), CharClass::TagTail);
        }
        seq![s.take(n as int)] + find_tags(s.skip(n as int))
    } else {
        find_tags(s.drop_first())
    }
}

/// Where the tags stand in a text whose first character has the place
/// `at`: for every match of the tag pattern, the place of its `@` and the
/// place after its last character.
pub open spec fn find_tag_spans(s: Seq<char>, at: int) -> Seq<(int, int)>
    decreases s.len(),
{
    if s.len() < 2 {
        Seq::empty()
    } else if s[0] == '@' && is_letter(s[1]) {
        let n = 2 + run_len(s.skip(2), CharClass::TagTail);
        proof {
            lemma_run_len_bounds(s.skip(2), CharClass::TagTail);
        }
        seq![(at, at + n)] + find_tag_spans(s.skip(n as int), at + n)
    } else {
        find_tag_spans(s.drop_first(), at + 1)
    }
}

/// The tags are what stands where the tags stand.
pub proof fn lemma_tag_spans(s: Seq<char>, at: int)
    ensures
        find_tag_spans(s, at).len() == find_tags(s).len(),
        forall|k: int|
            0 <= k < find_tags(s).len() ==> {
                let span = #[trigger] find_tag_spans(s, at)[k];
                &&& at <= span.0 < span.1 <= at + s.len()
                &&& find_tags(s)[k] == s.subrange(span.0 - at, span.1 - at)
            },
    decreases s.len(),
{
    if s.len() < 2 {
    } else if s[0] == '@' && is_letter(s[1]) {
        lemma_run_len_bounds(s.skip(2), CharClass::TagTail);
        let n = (2 + run_len(s.skip(2), CharClass::TagTail)) as int;
        let rest = s.skip(n);
        lemma_tag_spans(rest, at + n);
        assert forall|k: int| 0 <= k < find_tags(s).len() implies {
            let span = #[trigger] find_tag_spans(s, at)[k];
            &&& at <= span.0 < span.1 <= at + s.len()
            &&& find_tags(s)[k] == s.subrange(span.0 - at, span.1 - at)
        } by {
            if k == 0 {
                assert(s.take(n) =~= s.subrange(0, n));
            } else {
                let span = find_tag_spans(rest, at + n)[k - 1];
                assert(find_tag_spans(s, at)[k] == span);
                assert(find_tags(s)[k] == find_tags(rest)[k - 1]);
                assert(rest.subrange(span.0 - at - n, span.1 - at - n) =~= s.subrange(
                    span.0 - at,
                    span.1 - at,
                ));
            }
        }
    } else {
        let rest = s.drop_first();
        lemma_tag_spans(rest, at + 1);
        assert forall|k: int| 0 <= k < find_tags(s).len() implies {
            let span = #[trigger] find_tag_spans(s, at)[k];
            &&& at <= span.0 < span.1 <= at + s.len()
            &&& find_tags(s)[k] == s.subrange(span.0 - at, span.1 - at)
        } by {
            let span = find_tag_spans(rest, at + 1)[k];
            assert(rest.subrange(span.0 - at - 1, span.1 - at - 1) =~= s.subrange(
                span.0 - at,
                span.1 - at,
            ));
        }
    }
}

/// Where the tags stand in `message`, counted in characters: for every
/// tag the place of its `@` and the place after its last character, from
/// left to right.
pub fn tag_spans(message: &str) -> (r: Vec<(usize, usize)>)
    ensures
        r.len() == find_tag_spans(message@, 0).len(),
        forall|k: int|
            0 <= k < r.len() ==> (#[trigger] r[k]).0 == find_tag_spans(message@, 0)[k].0 && r[k].1
                == find_tag_spans(message@, 0)[k].1,
        r.len() == find_tags(message@).len(),
        forall|k: int|
            0 <= k < r.len() ==> (#[trigger] r[k]).0 < r[k].1 <= message@.len() && find_tags(
                message@,
            )[k] == message@.subrange(r[k].0 as int, r[k].1 as int),
{
    proof {
        lemma_tag_spans(message@, 0);
    }
    let v = to_chars(message);
    let mut r: Vec<(usize, usize)> = Vec::new();
    let mut i: usize = 0;
    let ghost mut found: Seq<(int, int)> = Seq::empty();
    proof {
        assert(v@.skip(0) =~= v@);
    }
    while i < v.len()
        invariant
            i <= v.len(),
            v@ == message@,
            find_tag_spans(v@, 0) == found + find_tag_spans(v@.skip(i as int), i as int),
            r.len() == found.len(),
            forall|k: int|
                0 <= k < r.len() ==> (#[trigger] r[k]).0 == found[k].0 && r[k].1 == found[k].1,
        decreases v.len() - i,
    {
        let ghost s = v@.skip(i as int);
        if v[i] == '@' && i + 1 < v.len() && is_ascii_letter(v[i + 1]) {
            let end: usize = run_end(&v, i + 2, CharClass::TagTail);
            proof {
                assert(s[0] == v@[i as int]);
                assert(s[1] == v@[i + 1]);
                assert(s.skip(2) =~= v@.skip(i + 2));
                assert(s.skip(end - i) =~= v@.skip(end as int));
                let span = (i as int, end as int);
                assert(found + (seq![span] + find_tag_spans(v@.skip(end as int), end as int))
                    =~= found.push(span) + find_tag_spans(v@.skip(end as int), end as int));
                found = found.push(span);
            }
            r.push((i, end));
            i = end;
        } else {
            proof {
                assert(s[0] == v@[i as int]);
                if i + 1 < v.len() {
                    assert(s[1] == v@[i + 1]);
                }
                assert(s.drop_first() =~= v@.skip(i + 1));
            }
            i += 1;
        }
    }
    proof {
        assert(find_tag_spans(v@.skip(i as int), i as int) =~= Seq::<(int, int)>::empty());
        assert(found + Seq::<(int, int)>::empty() =~= found);
    }
    r
}

/// The texts of `s`, each once, in the order they first occur.
pub open spec fn distinct(s: Seq<Seq<char>>) -> Seq<Seq<char>>
    decreases s.len(),
{
    if s.len() == 0 {
        Seq::empty()
    } else {
        let d = distinct(s.drop_last());
        if d.contains(s.last()) {
            d
        } else {
            d.push(s.last())
        }
    }
}

/// The tags of a message: its matches of the tag pattern, each once.
pub open spec fn tags_of(message: Seq<char>) -> Seq<Seq<char>> {
    distinct(find_tags(message))
}

/// What a tag looks like: `@`, a letter, then letters, digits and `_`.
pub open spec fn is_tag(t: Seq<char>) -> bool {
    &&& t.len() >= 2
    &&& t[0] == '@'
    &&& is_letter(t[1])
    &&& all_in(t.skip(2), CharClass::TagTail)
}

/// Every match of the tag pattern looks like a tag.
pub proof fn lemma_find_tags(s: Seq<char>)
    ensures
        forall|k: int| 0 <= k < find_tags(s).len() ==> is_tag(#[trigger] find_tags(s)[k]),
    decreases s.len(),
{
    if s.len() < 2 {
        assert(find_tags(s).len() == 0);
    } else if s[0] == '@' && is_letter(s[1]) {
        let tail = s.skip(2);
        lemma_run_len_bounds(tail, CharClass::TagTail);
        let n = (2 + run_len(tail, CharClass::TagTail)) as int;
        let tag = s.take(n);
        lemma_find_tags(s.skip(n));
        assert(find_tags(s) == seq![tag] + find_tags(s.skip(n)));
        assert(is_tag(tag)) by {
            assert(tag[0] == s[0]);
            assert(tag[1] == s[1]);
            assert forall|i: int| 0 <= i < tag.skip(2).len() implies crate::text::in_class(
                #[trigger] tag.skip(2)[i],
                CharClass::TagTail,
            ) by {
                assert(tag.skip(2)[i] == tail[i]);
            }
        }
        assert forall|k: int| 0 <= k < find_tags(s).len() implies is_tag(
            #[trigger] find_tags(s)[k],
        ) by {
            if k > 0 {
                assert(find_tags(s)[k] == find_tags(s.skip(n))[k - 1]);
            } else {
                assert(find_tags(s)[0] == tag);
            }
        }
    } else {
        lemma_find_tags(s.drop_first());
        assert(find_tags(s) == find_tags(s.drop_first()));
    }
}

/// The texts taken once each are texts of those given, every text given
/// is among them, and none of them twice; they are no more than those
/// given.
pub proof fn lemma_distinct(s: Seq<Seq<char>>)
    ensures
        distinct(s).len() <= s.len(),
        forall|i: int| 0 <= i < distinct(s).len() ==> s.contains(#[trigger] distinct(s)[i]),
        forall|j: int| 0 <= j < s.len() ==> distinct(s).contains(#[trigger] s[j]),
        forall|i: int, j: int|
            0 <= i < j < distinct(s).len() ==> #[trigger] distinct(s)[i] != #[trigger] distinct(
                s,
            )[j],
    decreases s.len(),
{
    if s.len() == 0 {
        assert(distinct(s).len() == 0);
    } else {
        let before = s.drop_last();
        let last = s.last();
        let d = distinct(before);
        let all = distinct(s);
        lemma_distinct(before);
        assert(all == if d.contains(last) {
            d
        } else {
            d.push(last)
        });
        assert forall|i: int| 0 <= i < all.len() implies s.contains(#[trigger] all[i]) by {
            if i < d.len() {
                assert(all[i] == d[i]);
                assert(before.contains(d[i]));
                let j = choose|j: int| 0 <= j < before.len() && before[j] == d[i];
                assert(s[j] == all[i]);
            } else {
                assert(s[s.len() - 1] == all[i]);
            }
        }
        assert forall|j: int| 0 <= j < s.len() implies all.contains(#[trigger] s[j]) by {
            if j < before.len() {
                assert(before[j] == s[j]);
                assert(d.contains(before[j]));
                let i = choose|i: int| 0 <= i < d.len() && d[i] == before[j];
                assert(all[i] == s[j]);
            } else if d.contains(last) {
                let i = choose|i: int| 0 <= i < d.len() && d[i] == last;
                assert(all[i] == s[j]);
            } else {
                assert(all[d.len() as int] == s[j]);
            }
        }
        assert forall|i: int, j: int| 0 <= i < j < all.len() implies #[trigger] all[i]
            != #[trigger] all[j] by {
            if j == d.len() {
                assert(all[i] == d[i]);
                if d[i] == last {
                    assert(d.contains(last));
                }
            } else {
                assert(d[i] != d[j]);
            }
        }
    }
}

/// The tags of a message look like tags, and no tag is given twice.
pub proof fn lemma_tags_of(message: Seq<char>)
    ensures
        forall|k: int| 0 <= k < tags_of(message).len() ==> is_tag(#[trigger] tags_of(message)[k]),
        forall|i: int, j: int|
            0 <= i < j < tags_of(message).len() ==> #[trigger] tags_of(message)[i]
                != #[trigger] tags_of(message)[j],
{
    let found = find_tags(message);
    let tags = tags_of(message);
    lemma_find_tags(message);
    lemma_distinct(found);
    assert forall|k: int| 0 <= k < tags.len() implies is_tag(#[trigger] tags[k]) by {
        assert(found.contains(tags[k]));
        let i = choose|i: int| 0 <= i < found.len() && found[i] == tags[k];
        assert(is_tag(found[i]));
    }
}

/// The tags in `message`: every `@word`, where the word starts with a
/// letter and goes on with letters, digits and `_`. Each tag is given once,
/// with its `@`.
pub fn extract_tags(message: &str) -> (r: Vec<String>)
    ensures
        views(r@) == tags_of(message@),
        forall|k: int| 0 <= k < r.len() ==> is_tag(#[trigger] r[k]@),
        forall|i: int, j: int| 0 <= i < j < r.len() ==> #[trigger] r[i]@ != #[trigger] r[j]@,
{
    let v = to_chars(message);
    let r = tags_in(&v);
    proof {
        lemma_tags_of(message@);
        assert forall|k: int| 0 <= k < r.len() implies is_tag(#[trigger] r[k]@) by {
            assert(views(r@)[k] == r[k]@);
        }
        assert forall|i: int, j: int| 0 <= i < j < r.len() implies #[trigger] r[i]@
            != #[trigger] r[j]@ by {
            assert(views(r@)[i] == r[i]@);
            assert(views(r@)[j] == r[j]@);
        }
    }
    r
}

/// The tags in the characters `v`.
pub fn tags_in(v: &Vec<char>) -> (r: Vec<String>)
    ensures
        views(r@) == tags_of(v@),
{
    let mut r: Vec<String> = Vec::new();
    let mut i: usize = 0;
    let ghost mut found: Seq<Seq<char>> = Seq::empty();
    proof {
        assert(v@.skip(0) =~= v@);
        assert(views(r@) =~= Seq::<Seq<char>>::empty());
    }
    while i < v.len()
        invariant
            i <= v.len(),
            find_tags(v@) == found + find_tags(v@.skip(i as int)),
            views(r@) == distinct(found),
        decreases v.len() - i,
    {
        let ghost s = v@.skip(i as int);
        if v[i] == '@' && i + 1 < v.len() && is_ascii_letter(v[i + 1]) {
            let end: usize = run_end(v, i + 2, CharClass::TagTail);
            let tag_chars = sub_chars(v, i, end);
            let tag = from_chars(&tag_chars);
            proof {
                assert(s[0] == v@[i as int]);
                assert(s[1] == v@[i + 1]);
                assert(s.skip(2) =~= v@.skip(i + 2));
                assert(s.take(end - i) =~= tag@);
                assert(s.skip(end - i) =~= v@.skip(end as int));
                assert(found + (seq![tag@] + find_tags(v@.skip(end as int))) =~= found.push(tag@)
                    + find_tags(v@.skip(end as int)));
                assert(found.push(tag@).drop_last() =~= found);
            }
            if !contains_text(&r, &tag) {
                proof {
                    lemma_views_push(r@, tag);
                }
                r.push(tag);
            }
            proof {
                found = found.push(tag@);
            }
            i = end;
        } else {
            proof {
                assert(s[0] == v@[i as int]);
                if i + 1 < v.len() {
                    assert(s[1] == v@[i + 1]);
                }
                assert(s.drop_first() =~= v@.skip(i + 1));
            }
            i += 1;
        }
    }
    proof {
        assert(found + Seq::<Seq<char>>::empty() =~= found);
    }
    r
}

/// The words of a header that say what kind of entry it is.
pub open spec fn kind_words(kind: KindView) -> Seq<Seq<char>> {
    match kind {
        KindView::Note => Seq::empty(),
        KindView::Todo(None) => seq!["todo"@, "not-done"@],
        KindView::Todo(Some(t)) => seq!["todo"@, time_text(t)],
        KindView::Reminder(t) => seq!["remind"@, "on"@, time_text(t)],
    }
}

/// The word of a header that gives the id, if there is one.
pub open spec fn id_words(uuid: Option<Seq<char>>) -> Seq<Seq<char>> {
    match uuid {
        Some(u) => seq!["id="@ + u],
        None => Seq::empty(),
    }
}

/// The words of a header that follow the time.
pub open spec fn header_words(e: JotView) -> Seq<Seq<char>> {
    kind_words(e.msg_type) + id_words(e.uuid)
}

/// The words one after the other, a space before each.
pub open spec fn spaced(words: Seq<Seq<char>>) -> Seq<char>
    decreases words.len(),
{
    if words.len() == 0 {
        Seq::empty()
    } else {
        seq![' '] + words[0] + spaced(words.drop_first())
    }
}

/// One more word at the end adds a space and the word to the text.
pub proof fn lemma_spaced_push(words: Seq<Seq<char>>, word: Seq<char>)
    ensures
        spaced(words.push(word)) == spaced(words) + seq![' '] + word,
    decreases words.len(),
{
    let more = words.push(word);
    if words.len() == 0 {
        assert(more.drop_first() =~= Seq::<Seq<char>>::empty());
        assert(more[0] == word);
        assert(spaced(more.drop_first()) =~= Seq::<char>::empty());
        assert(spaced(more) =~= seq![' '] + word);
        assert(spaced(words) + seq![' '] + word =~= seq![' '] + word);
    } else {
        let rest = words.drop_first();
        lemma_spaced_push(rest, word);
        assert(more.drop_first() =~= rest.push(word));
        assert(more[0] == words[0]);
        assert(seq![' '] + words[0] + (spaced(rest) + seq![' '] + word) =~= seq![' '] + words[0]
            + spaced(rest) + seq![' '] + word);
    }
}

/// The header line of an entry: `[`, the time, the words, `]`.
pub open spec fn header_text(e: JotView) -> Seq<char> {
    seq!['['] + time_text(e.datetime) + spaced(header_words(e)) + seq![']']
}

/// The text of an entry in the journal: the header line and, on the
/// lines after it, the message without the white space at its ends; then
/// two line feeds. Where nothing is left of the message, the header line
/// stands alone.
pub open spec fn entry_text(e: JotView) -> Seq<char> {
    trim(header_text(e) + seq!['\n'] + trim(e.message)) + seq!['\n', '\n']
}

/// Appends a space and the word to `v`.
fn push_word(v: &mut Vec<char>, word: &str, Ghost(words): Ghost<Seq<Seq<char>>>)
    ensures
        final(v)@ == old(v)@ + seq![' '] + word@,
        spaced(words.push(word@)) == spaced(words) + seq![' '] + word@,
{
    v.push(' ');
    append_str(v, word);
    proof {
        lemma_spaced_push(words, word@);
    }
}

impl Jot {
    /// A new entry made at the time `now`, with the message trimmed, the
    /// tags taken from it, and an id that none of `previous_uuids` is.
    /// Fewer ids must be in use than there are ids of 32 bits.
    pub fn new(
        message: &str,
        message_type: MessageType,
        now: Timestamp,
        previous_uuids: &Vec<String>,
    ) -> (r: Jot)
        requires
            previous_uuids@.len() < 0xFFFF_FFFF,
        ensures
            r@.datetime == now@,
            r@.message == trim(message@),
            r@.msg_type == message_type@,
            r@.id == 0,
            r@.tags == tags_of(trim(message@)),
            r@.uuid matches Some(u) && !views(previous_uuids@).contains(u) && exists|draw: nat|
                u == fresh_id(views(previous_uuids@), draw),
            well_read(r@),
    {
        let chars = to_chars(message);
        let trimmed = trim_chars(&chars);
        let tags = tags_in(&trimmed);
        let uuid = generate_new_uuid(previous_uuids);
        proof {
            crate::text::lemma_trim_fixed(message@);
            let draw = choose|draw: nat| uuid@ == fresh_id(views(previous_uuids@), draw);
            lemma_fresh_id_plain(views(previous_uuids@), draw);
        }
        Jot {
            datetime: now,
            message: from_chars(&trimmed),
            msg_type: message_type,
            id: 0,
            uuid: Some(uuid),
            tags,
        }
    }

    /// The header line of the entry.
    pub fn write_to_header_string(&self) -> (r: String)
        ensures
            r@ == header_text(self@),
    {
        let chars = self.header_chars();
        from_chars(&chars)
    }

    /// The characters of the header line.
    fn header_chars(&self) -> (v: Vec<char>)
        ensures
            v@ == header_text(self@),
            time_ok(self@.datetime),
            kind_ok(self@.msg_type),
    {
        let mut v: Vec<char> = Vec::new();
        v.push('[');
        let stamp = self.datetime.to_rfc3339();
        append_str(&mut v, stamp.as_str());
        let ghost start = v@;
        let ghost mut words: Seq<Seq<char>> = Seq::empty();
        assert(start =~= seq!['['] + time_text(self@.datetime));
        assert(start + spaced(words) =~= start);
        match self.msg_type {
            MessageType::Note => {},
            MessageType::Todo(None) => {
                push_word(&mut v, "todo", Ghost(words));
                proof {
                    words = words.push("todo"@);
                }
                push_word(&mut v, "not-done", Ghost(words));
                proof {
                    words = words.push("not-done"@);
                }
            },
            MessageType::Todo(Some(done)) => {
                push_word(&mut v, "todo", Ghost(words));
                proof {
                    words = words.push("todo"@);
                }
                let text = done.to_rfc3339();
                push_word(&mut v, text.as_str(), Ghost(words));
                proof {
                    words = words.push(text@);
                }
            },
            MessageType::Reminder(due) => {
                push_word(&mut v, "remind", Ghost(words));
                proof {
                    words = words.push("remind"@);
                }
                push_word(&mut v, "on", Ghost(words));
                proof {
                    words = words.push("on"@);
                }
                let text = due.to_rfc3339();
                push_word(&mut v, text.as_str(), Ghost(words));
                proof {
                    words = words.push(text@);
                }
            },
        }
        assert(words =~= kind_words(self@.msg_type));
        assert(v@ =~= start + spaced(words));
        match &self.uuid {
            Some(uuid) => {
                let mut word: Vec<char> = to_chars("id=");
                append_str(&mut word, uuid.as_str());
                v.push(' ');
                append_chars(&mut v, &word);
                proof {
                    lemma_spaced_push(words, word@);
                    assert(v@ =~= start + spaced(words.push(word@)));
                    words = words.push(word@);
                }
            },
            None => {},
        }
        assert(words =~= header_words(self@));
        v.push(']');
        assert(v@ =~= header_text(self@));
        v
    }

    /// The text of the entry as the journal holds it. A lossless entry is
    /// read from that text as it is, as the first entry of a journal.
    pub fn to_string(&self) -> (r: String)
        ensures
            r@ == entry_text(self@),
            time_ok(self@.datetime),
            kind_ok(self@.msg_type),
            lossless(self@) ==> decode(r@) == seq![numbered(self@, 1)],
    {
        let mut v = self.header_chars();
        v.push('\n');
        let message = to_chars(self.message.as_str());
        let body = trim_chars(&message);
        append_chars(&mut v, &body);
        assert(v@ =~= header_text(self@) + seq!['\n'] + trim(self@.message));
        let mut t = trim_chars(&v);
        let ghost trimmed = t@;
        t.push('\n');
        t.push('\n');
        assert(t@ =~= trimmed + seq!['\n', '\n']);
        proof {
            if lossless(self@) {
                lemma_entry_round_trip(self@);
            }
        }
        from_chars(&t)
    }
}

/// A header line starts with `[` and a time of the fixed shape, and has a
/// `]` somewhere after them.
pub open spec fn is_header_line(line: Seq<char>) -> bool {
    &&& line.len() >= 27
    &&& line[0] == '['
    &&& timestamp_shape(line.subrange(1, 26))
    &&& 26 + run_len(line.skip(26), CharClass::Not(']')) < line.len()
}

/// What stands in a header line between the time and the first `]`.
pub open spec fn header_suffix(line: Seq<char>) -> Seq<char> {
    line.subrange(26, 26 + run_len(line.skip(26), CharClass::Not(']')) as int)
}

/// The id that a word `id=...` gives: what follows its last `=`.
pub open spec fn word_id(word: Seq<char>) -> Seq<char> {
    word.skip(word.len() - tail_run_len(word, CharClass::Not('=')))
}

/// The id of the first word that starts with `id=`, if there is one.
pub open spec fn find_id(words: Seq<Seq<char>>) -> Option<Seq<char>>
    decreases words.len(),
{
    if words.len() == 0 {
        None
    } else if has_prefix(words[0], "id="@) {
        Some(word_id(words[0]))
    } else {
        find_id(words.drop_first())
    }
}

/// The kind that the words of a header say. The first word decides:
/// `todo` asks for `not-done` or the time it was done as the next word,
/// `remind` for `on` and the time it is due; anything else is a note. It
/// is `None` where what `todo` or `remind` ask for is not there.
pub open spec fn parse_kind(words: Seq<Seq<char>>) -> Option<KindView> {
    if words.len() == 0 {
        Some(KindView::Note)
    } else if words[0] == "todo"@ {
        if words.len() < 2 {
            None
        } else if words[1] == "not-done"@ {
            Some(KindView::Todo(None))
        } else {
            match text_time(words[1]) {
                Some(t) => Some(KindView::Todo(Some(t))),
                None => None,
            }
        }
    } else if words[0] == "remind"@ {
        if words.len() < 3 || words[1] != "on"@ {
            None
        } else {
            match text_time(words[2]) {
                Some(t) => Some(KindView::Reminder(t)),
                None => None,
            }
        }
    } else {
        Some(KindView::Note)
    }
}

/// The id and the kind that the words after the time of a header give.
pub open spec fn parse_words(suffix: Seq<char>) -> Option<(Option<Seq<char>>, KindView)> {
    match parse_kind(tokens(suffix)) {
        Some(kind) => Some((find_id(tokens(suffix)), kind)),
        None => None,
    }
}

/// The entry that a header line and the lines after it stand for, with 0
/// for its place in the journal. It is `None` where the line is no header
/// line, where its time is none, or where its words give no kind.
pub open spec fn parse_entry(header: Seq<char>, body: Seq<char>) -> Option<JotView> {
    if !is_header_line(header) {
        None
    } else {
        match (text_time(header.subrange(1, 26)), parse_words(header_suffix(header))) {
            (Some(t), Some((uuid, kind))) => Some(
                JotView {
                    datetime: t,
                    message: trim(body),
                    msg_type: kind,
                    id: 0,
                    uuid,
                    tags: tags_of(trim(body)),
                },
            ),
            _ => None,
        }
    }
}

/// What an id that may be missing stands for.
pub open spec fn id_view(uuid: Option<String>) -> Option<Seq<char>> {
    match uuid {
        Some(u) => Some(u@),
        None => None,
    }
}

/// Whether `line` is a header line.
pub fn is_header(line: &Vec<char>) -> (r: bool)
    ensures
        r == is_header_line(line@),
{
    if line.len() < 27 || line[0] != '[' || !has_timestamp_shape(line, 1) {
        return false;
    }
    let end: usize = run_end(line, 26, CharClass::Not(']'));
    end < line.len()
}

/// The time that the characters of `v` from `from` up to `to` stand for.
fn read_time(v: &Vec<char>, from: usize, to: usize) -> (r: Option<Timestamp>)
    requires
        from <= to <= v.len(),
    ensures
        match text_time(v@.subrange(from as int, to as int)) {
            Some(t) => r matches Some(x) && x@ == t,
            None => r is None,
        },
{
    let part = sub_chars(v, from, to);
    let text = from_chars(&part);
    Timestamp::parse_from_rfc3339(text.as_str())
}

/// The id of the first of `words` that starts with `id=`.
fn read_id(words: &Vec<Vec<char>>) -> (r: Option<String>)
    ensures
        id_view(r) == find_id(views(words@)),
{
    let ghost all = views(words@);
    let mut i: usize = 0;
    assert(all.skip(0) =~= all);
    while i < words.len()
        invariant
            i <= words.len(),
            all == views(words@),
            find_id(all) == find_id(all.skip(i as int)),
        decreases words.len() - i,
    {
        let word = &words[i];
        let ghost rest = all.skip(i as int);
        proof {
            assert(rest[0] == word@);
            assert(word@.skip(0) =~= word@);
            assert(rest.drop_first() =~= all.skip(i + 1));
        }
        if starts_with(word, 0, "id=") {
            let from: usize = run_start(word, 0, word.len(), CharClass::Not('='));
            let id = sub_chars(word, from, word.len());
            proof {
                assert(word@.subrange(0, word.len() as int) =~= word@);
                assert(id@ =~= word_id(word@));
            }
            return Some(from_chars(&id));
        }
        i += 1;
    }
    None
}

/// The kind that `words` say.
fn read_kind(words: &Vec<Vec<char>>) -> (r: Option<MessageType>)
    ensures
        match parse_kind(views(words@)) {
            Some(kind) => r matches Some(x) && x@ == kind,
            None => r is None,
        },
{
    let ghost all = views(words@);
    if words.len() == 0 {
        return Some(MessageType::Note);
    }
    assert(all[0] == words@[0]@);
    if is_word(&words[0], "todo") {
        if words.len() < 2 {
            return None;
        }
        assert(all[1] == words@[1]@);
        if is_word(&words[1], "not-done") {
            return Some(MessageType::Todo(None));
        }
        assert(words@[1]@.subrange(0, words@[1]@.len() as int) =~= words@[1]@);
        match read_time(&words[1], 0, words[1].len()) {
            Some(t) => Some(MessageType::Todo(Some(t))),
            None => None,
        }
    } else if is_word(&words[0], "remind") {
        if words.len() < 3 {
            return None;
        }
        assert(all[1] == words@[1]@);
        assert(all[2] == words@[2]@);
        if !is_word(&words[1], "on") {
            return None;
        }
        assert(words@[2]@.subrange(0, words@[2]@.len() as int) =~= words@[2]@);
        match read_time(&words[2], 0, words[2].len()) {
            Some(t) => Some(MessageType::Reminder(t)),
            None => None,
        }
    } else {
        Some(MessageType::Note)
    }
}

/// The id and the kind that the characters after the time of a header
/// give.
fn read_words(suffix: &Vec<char>) -> (r: Option<(Option<String>, MessageType)>)
    ensures
        match parse_words(suffix@) {
            Some((uuid, kind)) => r matches Some((x, y)) && id_view(x) == uuid && y@ == kind,
            None => r is None,
        },
{
    let words = split_words(suffix);
    match read_kind(&words) {
        Some(kind) => Some((read_id(&words), kind)),
        None => None,
    }
}

impl MessageType {
    /// Reads the kind of an entry, and its id if it has one, from the
    /// words that follow the time in a header.
    pub fn from_string(i: &str) -> (r: Option<(Option<String>, MessageType)>)
        ensures
            match parse_words(i@) {
                Some((uuid, kind)) => r matches Some((x, y)) && id_view(x) == uuid && y@ == kind,
                None => r is None,
            },
    {
        let v = to_chars(i);
        read_words(&v)
    }
}

/// The entry that the header line and the body stand for.
fn read_entry(header: &Vec<char>, body: &Vec<char>) -> (r: Option<Jot>)
    ensures
        match parse_entry(header@, body@) {
            Some(e) => r matches Some(j) && j@ == e,
            None => r is None,
        },
{
    if !is_header(header) {
        return None;
    }
    let end: usize = run_end(header, 26, CharClass::Not(']'));
    let suffix = sub_chars(header, 26, end);
    let datetime = match read_time(header, 1, 26) {
        Some(t) => t,
        None => {
            return None;
        },
    };
    let (uuid, msg_type) = match read_words(&suffix) {
        Some(pair) => pair,
        None => {
            return None;
        },
    };
    let trimmed = trim_chars(body);
    let tags = tags_in(&trimmed);
    let message = from_chars(&trimmed);
    Some(Jot { datetime, message, msg_type, id: 0, uuid, tags })
}

/// Reads one entry from its header line and the text of the lines after
/// it. The entry has 0 for its place in the journal.
pub fn parse_jot(header_line: &str, message: &str) -> (r: Option<Jot>)
    ensures
        match parse_entry(header_line@, message@) {
            Some(e) => r matches Some(j) && j@ == e,
            None => r is None,
        },
{
    let header = to_chars(header_line);
    let body = to_chars(message);
    read_entry(&header, &body)
}

/// Where the first header line at or after `from` stands; the number of
/// lines where there is none.
pub open spec fn next_header(lines: Seq<Seq<char>>, from: int) -> int
    decreases lines.len() - from,
{
    if from < 0 || from >= lines.len() {
        lines.len() as int
    } else if is_header_line(lines[from]) {
        from
    } else {
        next_header(lines, from + 1)
    }
}

/// The next header line is the first one: no line before it is one.
pub proof fn lemma_next_header(lines: Seq<Seq<char>>, from: int)
    requires
        0 <= from <= lines.len(),
    ensures
        from <= next_header(lines, from) <= lines.len(),
        next_header(lines, from) < lines.len() ==> is_header_line(
            lines[next_header(lines, from)],
        ),
        forall|k: int| from <= k < next_header(lines, from) ==> !is_header_line(#[trigger] lines[k]),
    decreases lines.len() - from,
{
    if from < lines.len() && !is_header_line(lines[from]) {
        lemma_next_header(lines, from + 1);
    }
}

/// The entry with its place in the journal set.
pub open spec fn numbered(e: JotView, id: nat) -> JotView {
    JotView { id, ..e }
}

/// The entries that the lines from `from` on hold, when `count` entries
/// came before them. The lines before the first header line belong to no
/// entry. Each header line starts an entry whose body runs up to the next
/// header line; an entry that cannot be read is left out, and the others
/// are numbered as they come.
pub open spec fn decode_lines(lines: Seq<Seq<char>>, from: int, count: nat) -> Seq<JotView>
    decreases lines.len() - from,
{
    let head = next_header(lines, from);
    if from < 0 || head >= lines.len() {
        Seq::empty()
    } else {
        let end = next_header(lines, head + 1);
        proof {
            lemma_next_header(lines, from);
            lemma_next_header(lines, head + 1);
        }
        match parse_entry(lines[head], join_lines(lines.subrange(head + 1, end))) {
            Some(e) => seq![numbered(e, count + 1)] + decode_lines(lines, end, count + 1),
            None => decode_lines(lines, end, count),
        }
    }
}

/// The entries that the text of a journal holds.
pub open spec fn decode(text: Seq<char>) -> Seq<JotView> {
    decode_lines(split_lines(text), 0, 0)
}

/// The text of a journal that holds the entries given, in their order.
pub open spec fn journal_text(entries: Seq<JotView>) -> Seq<char>
    decreases entries.len(),
{
    if entries.len() == 0 {
        Seq::empty()
    } else {
        journal_text(entries.drop_last()) + entry_text(entries.last())
    }
}

/// Where the first header line at or after `from` stands.
fn find_header(all: &Vec<Vec<char>>, from: usize) -> (r: usize)
    requires
        from <= all.len(),
    ensures
        r == next_header(views(all@), from as int),
        from <= r <= all.len(),
{
    let ghost lines = views(all@);
    let mut i: usize = from;
    while i < all.len()
        invariant
            from <= i <= all.len(),
            lines == views(all@),
            next_header(lines, from as int) == next_header(lines, i as int),
        decreases all.len() - i,
    {
        assert(lines[i as int] == all@[i as int]@);
        if is_header(&all[i]) {
            return i;
        }
        i += 1;
    }
    i
}

/// Whether every header line from `from` on gives an entry.
pub open spec fn all_read(lines: Seq<Seq<char>>, from: int) -> bool
    decreases lines.len() - from,
{
    let head = next_header(lines, from);
    if from < 0 || head >= lines.len() {
        true
    } else {
        let end = next_header(lines, head + 1);
        proof {
            lemma_next_header(lines, from);
            lemma_next_header(lines, head + 1);
        }
        parse_entry(lines[head], join_lines(lines.subrange(head + 1, end))) is Some && all_read(
            lines,
            end,
        )
    }
}

/// Whether the entries of a journal hold all that the journal holds:
/// nothing but white space stands before the first header line, and every
/// header line gives an entry.
pub open spec fn readable(text: Seq<char>) -> bool {
    let lines = split_lines(text);
    &&& forall|k: int| 0 <= k < next_header(lines, 0) ==> trim(#[trigger] lines[k]).len() == 0
    &&& all_read(lines, 0)
}

/// Whether header lines give entries may be asked from the next header
/// line on.
pub proof fn lemma_all_read_from_header(lines: Seq<Seq<char>>, from: int)
    requires
        0 <= from <= lines.len(),
    ensures
        all_read(lines, from) == all_read(lines, next_header(lines, from)),
{
    lemma_next_header(lines, from);
    let head = next_header(lines, from);
    if head < lines.len() {
        assert(next_header(lines, head) == head);
    }
}

/// Whether the first `to` lines hold nothing but white space.
fn blank_lines(all: &Vec<Vec<char>>, to: usize) -> (r: bool)
    requires
        to <= all.len(),
    ensures
        r == forall|k: int| 0 <= k < to ==> trim(#[trigger] views(all@)[k]).len() == 0,
{
    let ghost lines = views(all@);
    let mut k: usize = 0;
    while k < to
        invariant
            k <= to <= all.len(),
            lines == views(all@),
            forall|j: int| 0 <= j < k ==> trim(#[trigger] lines[j]).len() == 0,
        decreases to - k,
    {
        assert(lines[k as int] == all@[k as int]@);
        if !crate::text::is_blank(&all[k]) {
            return false;
        }
        k += 1;
    }
    true
}

/// Reads the entries of a journal from its text, oldest first. An entry
/// starts at each header line and takes the lines up to the next header
/// line as its message. Entries whose header cannot be read are left out.
/// The entries are numbered from 1 in the order they stand in.
pub fn stream_jots(text: &str) -> (r: Vec<Jot>)
    ensures
        views(r@) == decode(text@),
        forall|i: int| 0 <= i < r.len() ==> well_read(#[trigger] r[i]@) && r[i].id == i + 1,
{
    let mut whole: bool = true;
    let jots = read_all(text, &mut whole);
    proof {
        lemma_decode_lines(split_lines(text@), 0, 0);
        assert forall|i: int| 0 <= i < jots.len() implies well_read(#[trigger] jots[i]@)
            && jots[i].id == i + 1 by {
            assert(views(jots@)[i] == jots[i]@);
        }
    }
    jots
}

/// Reads the entries of a journal as [`stream_jots`] does, but only where
/// they hold all that the journal holds: there are none for a journal with
/// a header line that gives no entry, or with text before its first header
/// line.
pub fn read_journal(text: &str) -> (r: Option<Vec<Jot>>)
    ensures
        r is Some <==> readable(text@),
        r matches Some(v) ==> views(v@) == decode(text@) && read_in_order(views(v@)),
{
    let mut whole: bool = true;
    let jots = read_all(text, &mut whole);
    proof {
        lemma_decode_lines(split_lines(text@), 0, 0);
    }
    if whole {
        Some(jots)
    } else {
        None
    }
}

/// Reads the entries of a journal, and sets `whole` to whether they hold
/// all that the journal holds.
fn read_all(text: &str, whole: &mut bool) -> (r: Vec<Jot>)
    ensures
        views(r@) == decode(text@),
        forall|i: int| 0 <= i < r.len() ==> well_read(#[trigger] r[i]@) && r[i].id == i + 1,
        *final(whole) == readable(text@),
{
    let chars = to_chars(text);
    let all = lines(&chars);
    let ghost lines = views(all@);
    let mut out: Vec<Jot> = Vec::new();
    let mut head: usize = find_header(&all, 0);
    let blank: bool = blank_lines(&all, head);
    let mut read: bool = true;
    proof {
        lemma_all_read_from_header(lines, 0);
    }
    proof {
        assert(views(out@) =~= Seq::<JotView>::empty());
        assert(Seq::<JotView>::empty() + decode_lines(lines, 0, 0) =~= decode_lines(lines, 0, 0));
        lemma_next_header(lines, 0);
        lemma_decode_from_header(lines, 0, 0);
    }
    while head < all.len()
        invariant
            lines == views(all@),
            lines == split_lines(text@),
            out.len() <= head <= all.len(),
            head < all.len() ==> is_header_line(lines[head as int]),
            decode(text@) == views(out@) + decode_lines(lines, head as int, out.len() as nat),
            all_read(lines, 0) == (read && all_read(lines, head as int)),
        decreases all.len() - head,
    {
        let end: usize = find_header(&all, head + 1);
        let body = join(&all, head + 1, end);
        let ghost before = views(out@);
        let ghost count = out.len() as nat;
        proof {
            assert(lines[head as int] == all@[head as int]@);
            lemma_next_header(lines, head + 1);
            lemma_decode_from_header(lines, end as int, count);
            lemma_decode_from_header(lines, end as int, count + 1);
            lemma_all_read_from_header(lines, end as int);
            assert(next_header(lines, head as int) == head);
        }
        match read_entry(&all[head], &body) {
            Some(jot) => {
                let mut jot = jot;
                let ghost e = jot@;
                jot.id = out.len() + 1;
                proof {
                    assert(jot@ == numbered(e, count + 1));
                    lemma_views_push(out@, jot);
                    assert(before + (seq![jot@] + decode_lines(lines, end as int, count + 1))
                        =~= before.push(jot@) + decode_lines(lines, end as int, count + 1));
                }
                out.push(jot);
            },
            None => {
                read = false;
            },
        }
        head = end;
    }
    proof {
        assert(decode_lines(lines, head as int, out.len() as nat) =~= Seq::<JotView>::empty());
        assert(views(out@) + Seq::<JotView>::empty() =~= views(out@));
        lemma_decode_lines(lines, 0, 0);
        assert forall|i: int| 0 <= i < out.len() implies well_read(#[trigger] out[i]@)
            && out[i].id == i + 1 by {
            assert(views(out@)[i] == out[i]@);
        }
    }
    *whole = read && blank;
    out
}

/// Reading may start at the next header line: the lines before it hold
/// nothing.
pub proof fn lemma_decode_from_header(lines: Seq<Seq<char>>, from: int, count: nat)
    requires
        0 <= from <= lines.len(),
    ensures
        decode_lines(lines, from, count) == decode_lines(
            lines,
            next_header(lines, from),
            count,
        ),
{
    lemma_next_header(lines, from);
    let head = next_header(lines, from);
    if head < lines.len() {
        assert(next_header(lines, head) == head);
    }
}

/// Adds an entry at the end of the text of a journal. The entry starts on
/// a line of its own, also where the journal does not end with a line
/// feed, and no line of the journal changes. A lossless entry is read from
/// the new text after the entries that the journal held, all as they were.
pub fn append_jot(journal: &str, jot: &Jot) -> (r: String)
    ensures
        r@ == appended(journal@, jot@),
        lossless(jot@) ==> decode(r@) == decode(journal@) + seq![
            numbered(jot@, decode(journal@).len() + 1),
        ],
{
    let mut v = to_chars(journal);
    if v.len() > 0 && v[v.len() - 1] != '\n' {
        if v[v.len() - 1] == '\r' {
            v.push('\r');
        }
        v.push('\n');
    }
    assert(v@ =~= journal@ + line_end_for(journal@));
    let text = jot.to_string();
    append_str(&mut v, text.as_str());
    proof {
        if lossless(jot@) {
            lemma_append(journal@, jot@);
        }
    }
    from_chars(&v)
}

/// Writes the entries as the text of a journal, in their order. Lossless
/// entries are read from that text as they are, numbered in their order.
pub fn encode_jots(jots: &Vec<Jot>) -> (r: String)
    ensures
        r@ == journal_text(views(jots@)),
        (forall|i: int| 0 <= i < jots.len() ==> lossless(#[trigger] jots[i]@)) ==> decode(r@)
            == renumbered(views(jots@), 0),
        forall|i: int|
            0 <= i < jots.len() ==> time_ok((#[trigger] jots[i]@).datetime) && kind_ok(
                jots[i]@.msg_type,
            ),
{
    let ghost entries = views(jots@);
    let mut v: Vec<char> = Vec::new();
    let mut i: usize = 0;
    assert(entries.take(0) =~= Seq::<JotView>::empty());
    while i < jots.len()
        invariant
            i <= jots.len(),
            entries == views(jots@),
            v@ == journal_text(entries.take(i as int)),
            forall|j: int| 0 <= j < i ==> time_ok((#[trigger] jots[j]@).datetime) && kind_ok(
                jots[j]@.msg_type,
            ),
        decreases jots.len() - i,
    {
        let text = jots[i].to_string();
        proof {
            assert(entries.take(i + 1).drop_last() =~= entries.take(i as int));
            assert(entries.take(i + 1).last() == jots@[i as int]@);
        }
        append_str(&mut v, text.as_str());
        i += 1;
    }
    assert(entries.take(jots.len() as int) =~= entries);
    proof {
        if forall|i: int| 0 <= i < jots.len() ==> lossless(#[trigger] jots[i]@) {
            assert forall|i: int| 0 <= i < entries.len() implies storable(
                #[trigger] entries[i],
            ) by {
                assert(entries[i] == jots[i]@);
                assert(lossless(jots[i]@));
            }
            lemma_round_trip(entries);
        }
    }
    from_chars(&v)
}

} // verus!
