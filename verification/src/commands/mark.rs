//! Marking parts of a text, such as the matches of a search, for display.
//!
//! A span is a part of a text, from the place of its first character up
//! to the place after its last. The places that a search gives count
//! bytes; the text is marked by characters.

use crate::text::{append_chars, from_chars, sub_chars, to_chars, views};
use vstd::prelude::*;

verus! {

/// Whether a span starts no later than it ends.
pub open spec fn is_span(s: (usize, usize)) -> bool {
    s.0 <= s.1
}

/// Whether the spans follow each other, none reaching into the next.
pub open spec fn in_a_row(list: Seq<(usize, usize)>) -> bool {
    &&& forall|i: int| 0 <= i < list.len() ==> is_span(#[trigger] list[i])
    &&& forall|i: int, j: int|
        0 <= i < j < list.len() ==> (#[trigger] list[i]).1 <= (#[trigger] list[j]).0
}

/// The place in the list of the first span from `p` on that does not end
/// before `s` starts.
pub open spec fn place_for(list: Seq<(usize, usize)>, s: (usize, usize), p: int) -> int
    decreases list.len() - p,
{
    if p < 0 || p >= list.len() || list[p].1 > s.0 {
        p
    } else {
        place_for(list, s, p + 1)
    }
}

/// The list with the span `s` put in its place, where `s` is a span and
/// reaches into none of the list; else the list as it is.
pub open spec fn with_span(list: Seq<(usize, usize)>, s: (usize, usize)) -> Seq<(usize, usize)> {
    let p = place_for(list, s, 0);
    if !is_span(s) || (p < list.len() && list[p].0 < s.1) {
        list
    } else {
        list.insert(p, s)
    }
}

/// The spans kept of the first `i` lists and the first `j` spans of the
/// next list: each span in turn is kept where it reaches into none that
/// was kept before it.
pub open spec fn kept(found: Seq<Seq<(usize, usize)>>, i: int, j: int) -> Seq<(usize, usize)>
    decreases i, j,
{
    if i < 0 || j < 0 {
        Seq::empty()
    } else if j > 0 {
        with_span(kept(found, i, j - 1), found[i][j - 1])
    } else if i > 0 {
        kept(found, i - 1, found[i - 1].len() as int)
    } else {
        Seq::empty()
    }
}

/// Where a span belongs in a row of spans: after all that end before it
/// starts.
proof fn lemma_place_for(list: Seq<(usize, usize)>, s: (usize, usize), p: int)
    requires
        0 <= p <= list.len(),
    ensures
        p <= place_for(list, s, p) <= list.len(),
        forall|k: int| p <= k < place_for(list, s, p) ==> (#[trigger] list[k]).1 <= s.0,
        place_for(list, s, p) < list.len() ==> list[place_for(list, s, p)].1 > s.0,
    decreases list.len() - p,
{
    if p < list.len() && list[p].1 <= s.0 {
        lemma_place_for(list, s, p + 1);
    }
}

/// A row of spans stays a row when a span is put in its place.
pub proof fn lemma_with_span(list: Seq<(usize, usize)>, s: (usize, usize))
    requires
        in_a_row(list),
    ensures
        in_a_row(with_span(list, s)),
{
    lemma_place_for(list, s, 0);
    let p = place_for(list, s, 0);
    let more = with_span(list, s);
    if is_span(s) && !(p < list.len() && list[p].0 < s.1) {
        assert forall|i: int| 0 <= i < more.len() implies is_span(#[trigger] more[i]) by {
            if i < p {
                assert(more[i] == list[i]);
            } else if i > p {
                assert(more[i] == list[i - 1]);
            }
        }
        assert forall|i: int, j: int| 0 <= i < j < more.len() implies (#[trigger] more[i]).1 <= (
        #[trigger] more[j]).0 by {
            let a = if i < p {
                list[i]
            } else if i == p {
                s
            } else {
                list[i - 1]
            };
            let b = if j < p {
                list[j]
            } else if j == p {
                s
            } else {
                list[j - 1]
            };
            assert(more[i] == a);
            assert(more[j] == b);
            if j > p && p < list.len() {
                assert(list[p].0 <= list[j - 1].0) by {
                    if j - 1 > p {
                        assert(list[p].1 <= list[j - 1].0);
                        assert(is_span(list[p]));
                    }
                }
            }
        }
    }
}

/// The spans kept follow each other, none reaching into the next.
pub proof fn lemma_kept(found: Seq<Seq<(usize, usize)>>, i: int, j: int)
    ensures
        in_a_row(kept(found, i, j)),
    decreases i, j,
{
    if i < 0 || j < 0 {
    } else if j > 0 {
        lemma_kept(found, i, j - 1);
        lemma_with_span(kept(found, i, j - 1), found[i][j - 1]);
    } else if i > 0 {
        lemma_kept(found, i - 1, found[i - 1].len() as int);
    }
}

/// Puts the span in its place in the row, where it reaches into no span
/// of the row.
fn keep_span(list: &mut Vec<(usize, usize)>, s: (usize, usize))
    ensures
        final(list)@ == with_span(old(list)@, s),
{
    let mut p: usize = 0;
    while p < list.len() && list[p].1 <= s.0
        invariant
            p <= list.len(),
            place_for(list@, s, 0) == place_for(list@, s, p as int),
        decreases list.len() - p,
    {
        p += 1;
    }
    if s.0 > s.1 || (p < list.len() && list[p].0 < s.1) {
        return ;
    }
    list.insert(p, s);
}

/// Of the spans that several searches of one text found, those to mark:
/// the spans are taken list by list and one by one, and a span is kept
/// where it reaches into none that was kept before it. The spans kept are
/// given from left to right.
pub fn disjoint_spans(found: &Vec<Vec<(usize, usize)>>) -> (r: Vec<(usize, usize)>)
    ensures
        r@ == kept(views(found@), found.len() as int, 0),
        in_a_row(r@),
{
    let ghost all = views(found@);
    let mut r: Vec<(usize, usize)> = Vec::new();
    let mut i: usize = 0;
    while i < found.len()
        invariant
            i <= found.len(),
            all == views(found@),
            r@ == kept(all, i as int, 0),
        decreases found.len() - i,
    {
        let spans = &found[i];
        let mut j: usize = 0;
        assert(all[i as int] == spans@);
        while j < spans.len()
            invariant
                j <= spans.len(),
                i < found.len(),
                all[i as int] == spans@,
                r@ == kept(all, i as int, j as int),
            decreases spans.len() - j,
        {
            keep_span(&mut r, spans[j]);
            j += 1;
        }
        i += 1;
    }
    proof {
        lemma_kept(all, found.len() as int, 0);
    }
    r
}

/// How many bytes a character takes in UTF-8.
pub open spec fn utf8_len(c: char) -> int {
    let n = c as u32;
    if n < 0x80 {
        1
    } else if n < 0x800 {
        2
    } else if n < 0x1_0000 {
        3
    } else {
        4
    }
}

/// How many bytes the first `k` characters of a text take.
pub open spec fn bytes_before(s: Seq<char>, k: int) -> int
    decreases k,
{
    if k <= 0 {
        0
    } else {
        bytes_before(s, k - 1) + utf8_len(s[k - 1])
    }
}

/// The place, from `k` on, of the character that starts at the byte
/// given, or the length of the text for the byte after its last; none
/// where the byte lies inside a character or behind the text.
pub open spec fn char_place(s: Seq<char>, byte: int, k: int) -> Option<int>
    decreases s.len() - k,
{
    if k < 0 || bytes_before(s, k) > byte {
        None
    } else if bytes_before(s, k) == byte {
        Some(k)
    } else if k >= s.len() {
        None
    } else {
        char_place(s, byte, k + 1)
    }
}

/// The span counted in characters for a span counted in bytes, where both
/// its ends stand between characters.
pub open spec fn char_span(s: Seq<char>, span: (usize, usize)) -> Option<(usize, usize)> {
    match (char_place(s, span.0 as int, 0), char_place(s, span.1 as int, 0)) {
        (Some(from), Some(to)) => Some((from as usize, to as usize)),
        _ => None,
    }
}

/// The first `n` spans counted in characters; a span with an end inside
/// a character is left out.
pub open spec fn char_spans(s: Seq<char>, spans: Seq<(usize, usize)>, n: int) -> Seq<
    (usize, usize),
>
    decreases n,
{
    if n <= 0 {
        Seq::empty()
    } else {
        match char_span(s, spans[n - 1]) {
            Some(span) => char_spans(s, spans, n - 1).push(span),
            None => char_spans(s, spans, n - 1),
        }
    }
}

/// How many bytes the character takes in UTF-8.
fn len_utf8(c: char) -> (r: usize)
    ensures
        r == utf8_len(c),
        1 <= r <= 4,
{
    let n: u32 = c as u32;
    if n < 0x80 {
        1
    } else if n < 0x800 {
        2
    } else if n < 0x1_0000 {
        3
    } else {
        4
    }
}

/// The place of the character that starts at the byte given.
fn place_of_byte(v: &Vec<char>, byte: usize) -> (r: Option<usize>)
    ensures
        match char_place(v@, byte as int, 0) {
            Some(k) => r == Some(k as usize) && 0 <= k <= v.len(),
            None => r is None,
        },
{
    let mut k: usize = 0;
    let mut at: usize = 0;
    while at < byte && k < v.len()
        invariant
            k <= v.len(),
            at <= byte,
            at == bytes_before(v@, k as int),
            char_place(v@, byte as int, 0) == char_place(v@, byte as int, k as int),
        decreases v.len() - k,
    {
        let w: usize = len_utf8(v[k]);
        if w > byte - at {
            assert(bytes_before(v@, k + 1) > byte);
            assert(char_place(v@, byte as int, k + 1) is None);
            return None;
        }
        at += w;
        k += 1;
    }
    if at == byte {
        Some(k)
    } else {
        None
    }
}

/// The spans counted in characters for spans counted in bytes.
fn to_char_spans(v: &Vec<char>, spans: &Vec<(usize, usize)>) -> (r: Vec<(usize, usize)>)
    ensures
        r@ == char_spans(v@, spans@, spans.len() as int),
{
    let mut r: Vec<(usize, usize)> = Vec::new();
    let mut i: usize = 0;
    while i < spans.len()
        invariant
            i <= spans.len(),
            r@ == char_spans(v@, spans@, i as int),
        decreases spans.len() - i,
    {
        match (place_of_byte(v, spans[i].0), place_of_byte(v, spans[i].1)) {
            (Some(from), Some(to)) => {
                r.push((from, to));
            },
            _ => {},
        }
        i += 1;
    }
    r
}

/// The text from the place `at` on with the spans from the `k`-th on
/// marked: `open` stands before each span and `close` after it. A span
/// that starts before `at`, ends before it starts, or reaches behind the
/// text is passed over.
pub open spec fn marked(
    s: Seq<char>,
    spans: Seq<(usize, usize)>,
    open: Seq<char>,
    close: Seq<char>,
    at: int,
    k: int,
) -> Seq<char>
    decreases spans.len() - k,
{
    if k < 0 || k >= spans.len() {
        s.skip(at)
    } else {
        let from = spans[k].0 as int;
        let to = spans[k].1 as int;
        if at <= from <= to <= s.len() {
            s.subrange(at, from) + open + s.subrange(from, to) + close + marked(
                s,
                spans,
                open,
                close,
                to,
                k + 1,
            )
        } else {
            marked(s, spans, open, close, at, k + 1)
        }
    }
}

/// Marks the spans of the text, counted in characters.
fn mark_chars(v: &Vec<char>, spans: &Vec<(usize, usize)>, open: &str, close: &str) -> (r: Vec<char>)
    ensures
        r@ == marked(v@, spans@, open@, close@, 0, 0),
{
    let before = to_chars(open);
    let after = to_chars(close);
    let mut r: Vec<char> = Vec::new();
    let mut at: usize = 0;
    let mut k: usize = 0;
    assert(r@ + marked(v@, spans@, open@, close@, 0, 0) =~= marked(v@, spans@, open@, close@, 0, 0));
    while k < spans.len()
        invariant
            k <= spans.len(),
            at <= v.len(),
            before@ == open@,
            after@ == close@,
            marked(v@, spans@, open@, close@, 0, 0) == r@ + marked(
                v@,
                spans@,
                open@,
                close@,
                at as int,
                k as int,
            ),
        decreases spans.len() - k,
    {
        let (from, to) = spans[k];
        let ghost was = r@;
        let ghost rest = marked(v@, spans@, open@, close@, to as int, k + 1);
        if at <= from && from <= to && to <= v.len() {
            let plain = sub_chars(v, at, from);
            let inside = sub_chars(v, from, to);
            append_chars(&mut r, &plain);
            append_chars(&mut r, &before);
            append_chars(&mut r, &inside);
            append_chars(&mut r, &after);
            proof {
                assert(was + (plain@ + open@ + inside@ + close@ + rest) =~= r@ + rest);
            }
            at = to;
        }
        k += 1;
    }
    let tail = sub_chars(v, at, v.len());
    let ghost was = r@;
    append_chars(&mut r, &tail);
    proof {
        assert(tail@ =~= v@.skip(at as int));
    }
    r
}

/// The text with the spans marked, which count characters: `open` is put
/// before each span and `close` after it.
pub fn mark_spans(text: &str, spans: &Vec<(usize, usize)>, open: &str, close: &str) -> (r: String)
    ensures
        r@ == marked(text@, spans@, open@, close@, 0, 0),
{
    let v = to_chars(text);
    let r = mark_chars(&v, spans, open, close);
    from_chars(&r)
}

/// The text with what several searches found in it marked: `found` holds
/// for each search its spans, which count bytes. Of spans that reach into
/// each other the first is marked.
pub fn mark_matches(text: &str, found: &Vec<Vec<(usize, usize)>>, open: &str, close: &str) -> (r:
    String)
    ensures
        r@ == marked(
            text@,
            char_spans(
                text@,
                kept(views(found@), found.len() as int, 0),
                kept(views(found@), found.len() as int, 0).len() as int,
            ),
            open@,
            close@,
            0,
            0,
        ),
{
    let v = to_chars(text);
    let bytes = disjoint_spans(found);
    let spans = to_char_spans(&v, &bytes);
    let r = mark_chars(&v, &spans, open, close);
    from_chars(&r)
}

} // verus!
