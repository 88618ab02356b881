//! Searching the messages of the journal with patterns.
//!
//! Patterns are regular expressions. Where a pattern matches is given as
//! spans of the text, each from the offset of its first byte up to the
//! offset after its last.

use crate::commands::view::{loose_pattern, search_string_to_regex};
use crate::text::{from_chars, lowered, to_chars, to_lower, views};
use vstd::prelude::*;

verus! {

/// Where a pattern matches in a text, as the `regex` crate finds it: the
/// spans of the matches from left to right, none overlapping another; or
/// nothing, where the pattern is no regular expression.
pub uninterp spec fn regex_spans(pattern: Seq<char>, text: Seq<char>) -> Option<
    Seq<(usize, usize)>,
>;

/// `Regex::new` of the `regex` crate, and on the regular expression
/// `find_iter`, each match taken as its `start` and `end`. The crate
/// promises that no match starts after its end.
#[verifier::external_body]
fn regex_find_all(pattern: &str, text: &str) -> (r: Option<Vec<(usize, usize)>>)
    ensures
        match regex_spans(pattern@, text@) {
            Some(spans) => r matches Some(v) && v@ == spans,
            None => r is None,
        },
        r matches Some(v) ==> forall|i: int| 0 <= i < v.len() ==> (#[trigger] v[i]).0 <= v[i].1,
{
    match regex::Regex::new(pattern) {
        Ok(re) => Some(re.find_iter(text).map(|m| (m.start(), m.end())).collect()),
        Err(_) => None,
    }
}

/// How many bytes a span covers.
pub open spec fn span_size(span: (usize, usize)) -> int {
    if span.0 <= span.1 {
        span.1 - span.0
    } else {
        0
    }
}

/// The place of the smallest of the first `n` spans, the last of them
/// where several are as small; -1 where there is no span.
pub open spec fn smallest_at(spans: Seq<(usize, usize)>, n: int) -> int
    decreases n,
{
    if n <= 0 {
        -1
    } else {
        let before = smallest_at(spans, n - 1);
        if before < 0 || span_size(spans[n - 1]) <= span_size(spans[before]) {
            n - 1
        } else {
            before
        }
    }
}

/// The smallest of the spans, the last of them where several are as
/// small.
pub open spec fn smallest_span(spans: Seq<(usize, usize)>) -> Option<(usize, usize)> {
    if spans.len() == 0 {
        None
    } else {
        Some(spans[smallest_at(spans, spans.len() as int)])
    }
}

/// The smallest span is one of the spans, none is smaller, and none after
/// it is as small.
pub proof fn lemma_smallest_at(spans: Seq<(usize, usize)>, n: int)
    requires
        0 < n <= spans.len(),
    ensures
        0 <= smallest_at(spans, n) < n,
        forall|i: int|
            0 <= i < n ==> span_size(spans[smallest_at(spans, n)]) <= span_size(#[trigger] spans[i]),
        forall|i: int|
            smallest_at(spans, n) < i < n ==> span_size(spans[smallest_at(spans, n)]) < span_size(
                #[trigger] spans[i],
            ),
    decreases n,
{
    if n > 1 {
        lemma_smallest_at(spans, n - 1);
    } else {
        assert(smallest_at(spans, 0) == -1);
        assert(smallest_at(spans, 1) == 0);
    }
}

/// How many bytes a span covers.
pub fn span_len(span: (usize, usize)) -> (r: usize)
    ensures
        r == span_size(span),
{
    if span.0 <= span.1 {
        span.1 - span.0
    } else {
        0
    }
}

/// The smallest of the spans, the last of them where several are as
/// small; none where there is no span.
pub fn smallest_match(spans: &Vec<(usize, usize)>) -> (r: Option<(usize, usize)>)
    ensures
        r == smallest_span(spans@),
        r is None <==> spans.len() == 0,
        r matches Some(best) ==> forall|i: int|
            0 <= i < spans.len() ==> span_size(best) <= span_size(#[trigger] spans[i]),
{
    if spans.len() == 0 {
        return None;
    }
    proof {
        lemma_smallest_at(spans@, spans.len() as int);
    }
    let mut best: usize = 0;
    let mut i: usize = 1;
    assert(smallest_at(spans@, 0) == -1);
    assert(smallest_at(spans@, 1) == 0);
    while i < spans.len()
        invariant
            1 <= i <= spans.len(),
            best == smallest_at(spans@, i as int),
            0 <= best < i,
        decreases spans.len() - i,
    {
        if span_len(spans[i]) <= span_len(spans[best]) {
            best = i;
        }
        i += 1;
    }
    Some(spans[best])
}

/// The text with its capital letters from `A` to `Z` made small.
pub fn to_ascii_lowercase(text: &str) -> (r: String)
    ensures
        r@ == lowered(text@),
{
    let v = to_chars(text);
    let mut out: Vec<char> = Vec::new();
    let mut i: usize = 0;
    while i < v.len()
        invariant
            i <= v.len(),
            out.len() == i,
            forall|j: int| 0 <= j < i ==> out@[j] == crate::text::lower(v@[j]),
        decreases v.len() - i,
    {
        out.push(to_lower(v[i]));
        i += 1;
    }
    assert(out@ =~= lowered(v@));
    from_chars(&out)
}

/// What a loose search finds in a text: nothing where the search gives
/// no pattern; else the smallest match of the pattern in the text taken in
/// small letters, if there is a match.
pub open spec fn loose_match(search: Seq<char>, text: Seq<char>) -> Option<
    Option<(usize, usize)>,
> {
    match regex_spans(loose_pattern(search), lowered(text)) {
        Some(spans) => Some(smallest_span(spans)),
        None => None,
    }
}

/// Searches a text loosely for what the user typed: the characters of
/// the search must follow each other in the text with nothing but letters
/// and digits between them, whatever the case of the letters. Gives the
/// smallest match, if there is one; and nothing at all (the outer `None`)
/// where what the user typed makes no pattern.
pub fn loose_search(search: &str, text: &str) -> (r: Option<Option<(usize, usize)>>)
    ensures
        r == loose_match(search@, text@),
{
    let pattern = search_string_to_regex(search);
    let low = to_ascii_lowercase(text);
    match regex_find_all(pattern.as_str(), low.as_str()) {
        Some(spans) => Some(smallest_match(&spans)),
        None => None,
    }
}

/// Whether the entry at the place `i` is a hit: it has a match that is
/// less than twice as long as the search.
pub open spec fn is_hit(sizes: Seq<Option<usize>>, i: int, search_len: int) -> bool {
    0 <= i < sizes.len() && sizes[i] is Some && sizes[i].unwrap() < 2 * search_len
}

/// Whether the hit at `i` comes before the hit at `j`: the smaller match
/// first, and of two as small the one that stands first.
pub open spec fn hit_before(sizes: Seq<Option<usize>>, i: int, j: int) -> bool {
    sizes[i].unwrap() < sizes[j].unwrap() || (sizes[i].unwrap() == sizes[j].unwrap() && i < j)
}

/// Whether the hit at `p` comes after the hit at `last`, if that is one.
pub open spec fn after_hit(sizes: Seq<Option<usize>>, last: Option<usize>, p: int) -> bool {
    match last {
        Some(l) => hit_before(sizes, l as int, p),
        None => true,
    }
}

/// Whether `best` is a hit that is `p` or comes before it.
pub open spec fn not_after(sizes: Seq<Option<usize>>, best: Option<usize>, p: int) -> bool {
    match best {
        Some(b) => b == p || hit_before(sizes, b as int, p),
        None => false,
    }
}

/// Whether the entry at the place `i` is a hit.
fn hit_at(sizes: &Vec<Option<usize>>, i: usize, search_len: usize) -> (r: bool)
    requires
        i < sizes.len(),
    ensures
        r == is_hit(sizes@, i as int, search_len as int),
{
    match sizes[i] {
        Some(size) => size / 2 < search_len,
        None => false,
    }
}

/// Whether the hit at `i` comes before the hit at `j`.
fn comes_before(sizes: &Vec<Option<usize>>, i: usize, j: usize) -> (r: bool)
    requires
        i < sizes.len(),
        j < sizes.len(),
        sizes[i as int] is Some,
        sizes[j as int] is Some,
    ensures
        r == hit_before(sizes@, i as int, j as int),
{
    match (sizes[i], sizes[j]) {
        (Some(a), Some(b)) => a < b || (a == b && i < j),
        _ => false,
    }
}

/// The first hit after the hit at `last`, if there is one; the first hit
/// of all where `last` is none.
fn next_hit(sizes: &Vec<Option<usize>>, search_len: usize, last: Option<usize>) -> (r: Option<
    usize,
>)
    requires
        last matches Some(l) ==> is_hit(sizes@, l as int, search_len as int),
    ensures
        r matches Some(b) ==> is_hit(sizes@, b as int, search_len as int) && after_hit(
            sizes@,
            last,
            b as int,
        ),
        forall|p: int|
            is_hit(sizes@, p, search_len as int) && after_hit(sizes@, last, p) ==> not_after(
                sizes@,
                r,
                p,
            ),
{
    let mut best: Option<usize> = None;
    let mut i: usize = 0;
    while i < sizes.len()
        invariant
            i <= sizes.len(),
            last matches Some(l) ==> is_hit(sizes@, l as int, search_len as int),
            best matches Some(b) ==> b < i && is_hit(sizes@, b as int, search_len as int)
                && after_hit(sizes@, last, b as int),
            forall|p: int|
                0 <= p < i && is_hit(sizes@, p, search_len as int) && after_hit(sizes@, last, p)
                    ==> not_after(sizes@, best, p),
        decreases sizes.len() - i,
    {
        if hit_at(sizes, i, search_len) {
            let after_last: bool = match last {
                Some(l) => comes_before(sizes, l, i),
                None => true,
            };
            if after_last {
                let better: bool = match best {
                    Some(b) => comes_before(sizes, i, b),
                    None => true,
                };
                if better {
                    best = Some(i);
                }
            }
        }
        i += 1;
    }
    best
}

/// The places of the best hits of a loose search, at most five: `sizes`
/// holds for every entry the size of its smallest match, if it has one. A
/// hit is an entry whose match is less than twice as long as the search.
/// The hits with the smallest match come first, and of two as small the
/// one that stands first in the journal.
pub fn best_matches(sizes: &Vec<Option<usize>>, search_len: usize) -> (r: Vec<usize>)
    ensures
        r.len() <= 5,
        forall|k: int| 0 <= k < r.len() ==> is_hit(sizes@, #[trigger] r[k] as int, search_len as int),
        forall|k: int, l: int|
            0 <= k < l < r.len() ==> hit_before(sizes@, #[trigger] r[k] as int, #[trigger] r[l] as int),
        forall|p: int|
            is_hit(sizes@, p, search_len as int) ==> r@.contains(p as usize) || (r.len() == 5
                && hit_before(sizes@, r[4] as int, p)),
{
    let mut r: Vec<usize> = Vec::new();
    let mut last: Option<usize> = None;
    let mut open: bool = true;
    while open && r.len() < 5
        invariant
            r.len() <= 5,
            last is Some <==> r.len() > 0,
            last matches Some(l) ==> l == r[r.len() - 1],
            forall|k: int|
                0 <= k < r.len() ==> is_hit(sizes@, #[trigger] r[k] as int, search_len as int),
            forall|k: int, l: int|
                0 <= k < l < r.len() ==> hit_before(
                    sizes@,
                    #[trigger] r[k] as int,
                    #[trigger] r[l] as int,
                ),
            forall|p: int|
                is_hit(sizes@, p, search_len as int) ==> r@.contains(p as usize) || (r.len() > 0
                    && hit_before(sizes@, r[r.len() - 1] as int, p)) || (r.len() == 0 && open),
            !open ==> forall|p: int|
                is_hit(sizes@, p, search_len as int) ==> r@.contains(p as usize),
        decreases (if open { 1int } else { 0int }), 5 - r.len(),
    {
        let ghost before = r@;
        let ghost last_before = last;
        match next_hit(sizes, search_len, last) {
            Some(b) => {
                r.push(b);
                last = Some(b);
                proof {
                    assert(r@[r.len() - 1] == b);
                    assert forall|k: int, l: int| 0 <= k < l < r.len() implies hit_before(
                        sizes@,
                        #[trigger] r[k] as int,
                        #[trigger] r[l] as int,
                    ) by {
                        if l == r.len() - 1 && k < l - 1 {
                            assert(hit_before(sizes@, before[k] as int, before[l - 1] as int));
                        }
                    }
                    assert forall|p: int| is_hit(sizes@, p, search_len as int) implies r@.contains(
                        p as usize,
                    ) || hit_before(sizes@, b as int, p) by {
                        if before.contains(p as usize) {
                            let at = choose|at: int| 0 <= at < before.len() && before[at] == p as usize;
                            assert(r@[at] == p as usize);
                        } else {
                            assert(after_hit(sizes@, last_before, p));
                            assert(not_after(sizes@, Some(b), p));
                            if b == p {
                                assert(r@[r.len() - 1] == p as usize);
                            }
                        }
                    }
                }
            },
            None => {
                open = false;
                proof {
                    assert forall|p: int| is_hit(sizes@, p, search_len as int) implies r@.contains(
                        p as usize,
                    ) by {
                        if !r@.contains(p as usize) {
                            assert(after_hit(sizes@, last, p));
                            assert(not_after(sizes@, None, p));
                        }
                    }
                }
            },
        }
    }
    r
}

/// How a search with several patterns ended.
#[derive(Clone, Debug, PartialEq, Eq)]
pub enum GrepOutcome {
    /// The pattern at this place is no regular expression.
    Invalid(usize),
    /// Some pattern does not match the text.
    Missing,
    /// Every pattern matches; these are the spans of each, in the order of
    /// the patterns.
    Found(Vec<Vec<(usize, usize)>>),
}

/// The place of the first of the first `n` patterns that is no regular
/// expression; `n` where each is one.
pub open spec fn first_invalid(patterns: Seq<Seq<char>>, text: Seq<char>, n: int) -> int
    decreases n,
{
    if n <= 0 {
        0
    } else if first_invalid(patterns, text, n - 1) < n - 1 {
        first_invalid(patterns, text, n - 1)
    } else if regex_spans(patterns[n - 1], text) is None {
        n - 1
    } else {
        n
    }
}

/// Whether every one of the patterns matches the text somewhere.
pub open spec fn all_match(patterns: Seq<Seq<char>>, text: Seq<char>) -> bool {
    forall|i: int|
        0 <= i < patterns.len() ==> (#[trigger] regex_spans(patterns[i], text)) is Some
            && regex_spans(patterns[i], text).unwrap().len() > 0
}

/// Searches a text for every one of the patterns. A pattern that is no
/// regular expression ends the search, whatever the others find; else the
/// text must match each pattern.
pub fn grep(patterns: &Vec<String>, text: &str) -> (r: GrepOutcome)
    ensures
        match r {
            GrepOutcome::Invalid(k) => k == first_invalid(
                views(patterns@),
                text@,
                patterns.len() as int,
            ) && k < patterns.len(),
            GrepOutcome::Missing => first_invalid(views(patterns@), text@, patterns.len() as int)
                == patterns.len() && !all_match(views(patterns@), text@),
            GrepOutcome::Found(found) => {
                &&& all_match(views(patterns@), text@)
                &&& found.len() == patterns.len()
                &&& forall|i: int|
                    0 <= i < found.len() ==> Some((#[trigger] found[i])@) == regex_spans(
                        patterns[i]@,
                        text@,
                    )
            },
        },
{
    let ghost all = views(patterns@);
    let mut found: Vec<Vec<(usize, usize)>> = Vec::new();
    let mut i: usize = 0;
    while i < patterns.len()
        invariant
            i <= patterns.len(),
            all == views(patterns@),
            first_invalid(all, text@, i as int) == i,
            found.len() == i,
            forall|j: int|
                0 <= j < i ==> Some((#[trigger] found[j])@) == regex_spans(patterns[j]@, text@),
        decreases patterns.len() - i,
    {
        assert(all[i as int] == patterns@[i as int]@);
        match regex_find_all(patterns[i].as_str(), text) {
            Some(spans) => {
                found.push(spans);
            },
            None => {
                proof {
                    lemma_first_invalid(all, text@, i as int, patterns.len() as int);
                }
                return GrepOutcome::Invalid(i);
            },
        }
        i += 1;
    }
    let missing: bool = has_empty(&found);
    proof {
        if missing {
            let j = choose|j: int| 0 <= j < found.len() && (#[trigger] found[j]).len() == 0;
            assert(all[j] == patterns@[j]@);
            assert(regex_spans(all[j], text@) == Some(found[j]@));
        } else {
            assert forall|j: int| 0 <= j < all.len() implies (#[trigger] regex_spans(
                all[j],
                text@,
            )) is Some && regex_spans(all[j], text@).unwrap().len() > 0 by {
                assert(all[j] == patterns@[j]@);
                assert(Some(found[j]@) == regex_spans(patterns[j]@, text@));
                assert(found[j].len() != 0);
            }
        }
    }
    if missing {
        GrepOutcome::Missing
    } else {
        GrepOutcome::Found(found)
    }
}

/// Whether one of the lists of spans is empty.
fn has_empty(found: &Vec<Vec<(usize, usize)>>) -> (r: bool)
    ensures
        r <==> exists|j: int| 0 <= j < found.len() && (#[trigger] found[j]).len() == 0,
{
    let mut i: usize = 0;
    while i < found.len()
        invariant
            i <= found.len(),
            forall|j: int| 0 <= j < i ==> (#[trigger] found[j]).len() != 0,
        decreases found.len() - i,
    {
        if found[i].len() == 0 {
            return true;
        }
        i += 1;
    }
    false
}

/// A pattern that is no regular expression stays the first such pattern
/// when more patterns are looked at.
proof fn lemma_first_invalid(patterns: Seq<Seq<char>>, text: Seq<char>, k: int, n: int)
    requires
        0 <= k < n <= patterns.len(),
        first_invalid(patterns, text, k) == k,
        regex_spans(patterns[k], text) is None,
    ensures
        first_invalid(patterns, text, n) == k,
    decreases n - k,
{
    if n > k + 1 {
        lemma_first_invalid(patterns, text, k, n - 1);
    }
}

} // verus!
