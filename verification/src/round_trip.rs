//! Why writing entries and reading them again gives the same entries.

use crate::jot::{
    decode, decode_lines, entry_text, find_id, header_suffix, header_text, header_words, id_words,
    is_header_line, journal_text, kind_words, next_header, numbered, parse_entry, parse_kind,
    parse_words, spaced, tags_of, word_id, JotView, KindView,
};
use crate::text::{
    all_in, has_prefix, in_class, is_space, is_trimmed, join_lines, lemma_run_len,
    lemma_run_len_bounds, lemma_tail_run_len, lemma_tail_run_len_bounds, lemma_trim_fixed,
    run_len, split_lines, strip_cr, tail_run_len, tokens, trim, trim_end, trim_start, CharClass,
};
use crate::timestamp::{text_time, time_ok, time_text, timestamp_shape};
use vstd::prelude::*;

verus! {

/// The lines of a text that starts with a whole line.
pub proof fn lemma_split_first_line(line: Seq<char>, rest: Seq<char>)
    requires
        all_in(line, CharClass::Not('\n')),
    ensures
        split_lines(line + seq!['\n'] + rest) == seq![strip_cr(line)] + split_lines(rest),
{
    let t = line + seq!['\n'] + rest;
    assert forall|i: int| 0 <= i < line.len() implies in_class(
        #[trigger] t[i],
        CharClass::Not('\n'),
    ) by {
        assert(t[i] == line[i]);
        assert(in_class(line[i], CharClass::Not('\n')));
    }
    assert(t[line.len() as int] == '\n');
    lemma_run_len(t, CharClass::Not('\n'), line.len() as int);
    assert(t.take(line.len() as int) =~= line);
    assert(t.skip(line.len() as int + 1) =~= rest);
}

/// A text cut at its first line feed.
proof fn lemma_cut_line(a: Seq<char>)
    requires
        a.len() > 0,
        run_len(a, CharClass::Not('\n')) < a.len(),
    ensures
        ({
            let n = run_len(a, CharClass::Not('\n')) as int;
            &&& a == a.take(n) + seq!['\n'] + a.skip(n + 1)
            &&& all_in(a.take(n), CharClass::Not('\n'))
            &&& split_lines(a) == seq![strip_cr(a.take(n))] + split_lines(a.skip(n + 1))
        }),
{
    lemma_run_len_bounds(a, CharClass::Not('\n'));
    let n = run_len(a, CharClass::Not('\n')) as int;
    assert(a[n] == '\n');
    assert(a =~= a.take(n) + seq!['\n'] + a.skip(n + 1));
    assert forall|i: int| 0 <= i < n implies in_class(
        #[trigger] a.take(n)[i],
        CharClass::Not('\n'),
    ) by {
        assert(a.take(n)[i] == a[i]);
    }
}

/// The lines of two texts one after the other, where the first is empty
/// or ends with a line feed, are the lines of the first and then those of
/// the second.
pub proof fn lemma_split_lines_concat(a: Seq<char>, b: Seq<char>)
    requires
        a.len() == 0 || a.last() == '\n',
    ensures
        split_lines(a + b) == split_lines(a) + split_lines(b),
    decreases a.len(),
{
    if a.len() == 0 {
        assert(a + b =~= b);
        assert(split_lines(a) + split_lines(b) =~= split_lines(b));
    } else {
        lemma_run_len_bounds(a, CharClass::Not('\n'));
        let n = run_len(a, CharClass::Not('\n')) as int;
        lemma_cut_line(a);
        let line = a.take(n);
        let a2 = a.skip(n + 1);
        if a2.len() > 0 {
            assert(a2.last() == a.last());
        }
        assert(a + b =~= line + seq!['\n'] + (a2 + b));
        lemma_split_first_line(line, a2 + b);
        lemma_split_lines_concat(a2, b);
        assert(seq![strip_cr(line)] + (split_lines(a2) + split_lines(b)) =~= seq![strip_cr(line)]
            + split_lines(a2) + split_lines(b));
    }
}

/// A line feed after a text that ends neither with a line feed nor with a
/// carriage return ends the last line of that text and changes no line.
pub proof fn lemma_split_lines_then(x: Seq<char>, y: Seq<char>)
    requires
        x.len() > 0,
        x.last() != '\n',
        x.last() != '\r',
    ensures
        split_lines(x + seq!['\n'] + y) == split_lines(x) + split_lines(y),
    decreases x.len(),
{
    lemma_run_len_bounds(x, CharClass::Not('\n'));
    let n = run_len(x, CharClass::Not('\n')) as int;
    if n == x.len() {
        lemma_split_first_line(x, y);
    } else {
        lemma_cut_line(x);
        let line = x.take(n);
        let x2 = x.skip(n + 1);
        assert(x[n] == '\n');
        assert(x2.len() > 0);
        assert(x2.last() == x.last());
        assert(x + seq!['\n'] + y =~= line + seq!['\n'] + (x2 + seq!['\n'] + y));
        lemma_split_first_line(line, x2 + seq!['\n'] + y);
        lemma_split_lines_then(x2, y);
        assert(seq![strip_cr(line)] + (split_lines(x2) + split_lines(y)) =~= seq![strip_cr(line)]
            + split_lines(x2) + split_lines(y));
    }
}

/// Joining a line and then more lines puts a line feed after the first.
pub proof fn lemma_join_front(first: Seq<char>, more: Seq<Seq<char>>)
    requires
        more.len() > 0,
    ensures
        join_lines(seq![first] + more) == first + seq!['\n'] + join_lines(more),
    decreases more.len(),
{
    let all = seq![first] + more;
    if more.len() == 1 {
        assert(all.drop_last() =~= seq![first]);
        assert(all.last() == more[0]);
        assert(join_lines(seq![first]) == first);
        assert(join_lines(more) == more[0]);
        assert(join_lines(all) == join_lines(all.drop_last()) + seq!['\n'] + all.last());
    } else {
        assert(all.drop_last() =~= seq![first] + more.drop_last());
        assert(all.last() == more.last());
        lemma_join_front(first, more.drop_last());
        assert(join_lines(all) == join_lines(all.drop_last()) + seq!['\n'] + all.last());
        assert(join_lines(more) == join_lines(more.drop_last()) + seq!['\n'] + more.last());
        assert(first + seq!['\n'] + join_lines(more.drop_last()) + seq!['\n'] + more.last()
            =~= first + seq!['\n'] + (join_lines(more.drop_last()) + seq!['\n'] + more.last()));
    }
}

/// No carriage return stands directly before a line feed.
pub open spec fn no_crlf(s: Seq<char>) -> bool {
    forall|i: int| 0 <= i < s.len() - 1 ==> !(#[trigger] s[i] == '\r' && s[i + 1] == '\n')
}

/// Cutting a text into lines and joining them gives the text back, where
/// it does not end with a line feed and no line ends with a carriage
/// return.
pub proof fn lemma_join_split(m: Seq<char>)
    requires
        m.len() == 0 || m.last() != '\n',
        no_crlf(m),
    ensures
        join_lines(split_lines(m)) == m,
        m.len() > 0 ==> split_lines(m).len() > 0,
    decreases m.len(),
{
    if m.len() > 0 {
        lemma_run_len_bounds(m, CharClass::Not('\n'));
        let n = run_len(m, CharClass::Not('\n')) as int;
        if n < m.len() {
            lemma_cut_line(m);
            let line = m.take(n);
            let m2 = m.skip(n + 1);
            assert(m[n] == '\n');
            assert(m2.len() > 0);
            assert(m2.last() == m.last());
            assert(no_crlf(m2)) by {
                assert forall|i: int| 0 <= i < m2.len() - 1 implies !(#[trigger] m2[i] == '\r'
                    && m2[i + 1] == '\n') by {
                    assert(m2[i] == m[n + 1 + i]);
                    assert(m2[i + 1] == m[n + 1 + i + 1]);
                }
            }
            if n > 0 {
                assert(line.last() == m[n - 1]);
                assert(!(m[n - 1] == '\r' && m[n - 1 + 1] == '\n'));
            }
            assert(strip_cr(line) == line);
            lemma_join_split(m2);
            lemma_join_front(line, split_lines(m2));
        }
    }
}

/// A word of a header: not empty, and without white space and `]`.
pub open spec fn plain_word(w: Seq<char>) -> bool {
    &&& w.len() > 0
    &&& all_in(w, CharClass::Word)
    &&& all_in(w, CharClass::Not(']'))
}

/// Whether every one of the words is a plain word.
pub open spec fn plain_words(words: Seq<Seq<char>>) -> bool {
    forall|i: int| 0 <= i < words.len() ==> plain_word(#[trigger] words[i])
}

/// Words written with a space before each are read as the same words.
pub proof fn lemma_tokens_spaced(words: Seq<Seq<char>>)
    requires
        plain_words(words),
    ensures
        tokens(spaced(words)) == words,
    decreases words.len(),
{
    if words.len() == 0 {
        assert(tokens(spaced(words)) =~= words);
    } else {
        let w = words[0];
        let tail = words.drop_first();
        let rest = spaced(tail);
        let s = spaced(words);
        assert(plain_word(w));
        assert(plain_words(tail)) by {
            assert forall|i: int| 0 <= i < tail.len() implies plain_word(#[trigger] tail[i]) by {
                assert(tail[i] == words[i + 1]);
            }
        }
        lemma_tokens_spaced(tail);
        assert(s[0] == ' ');
        let t = s.drop_first();
        assert(t =~= w + rest);
        assert(t[0] == w[0]);
        assert(in_class(w[0], CharClass::Word));
        assert forall|i: int| 0 <= i < w.len() implies in_class(
            #[trigger] t[i],
            CharClass::Word,
        ) by {
            assert(t[i] == w[i]);
            assert(in_class(w[i], CharClass::Word));
        }
        if rest.len() > 0 {
            assert(rest[0] == ' ');
            assert(t[w.len() as int] == rest[0]);
        }
        lemma_run_len(t, CharClass::Word, w.len() as int);
        assert(t.take(w.len() as int) =~= w);
        assert(t.skip(w.len() as int) =~= rest);
        assert(tokens(s) == tokens(t));
        assert(seq![w] + tail =~= words);
    }
}

/// Words written with a space before each hold no character that neither
/// a space nor any of the words holds.
pub proof fn lemma_spaced_all_in(words: Seq<Seq<char>>, k: CharClass)
    requires
        in_class(' ', k),
        forall|i: int| 0 <= i < words.len() ==> all_in(#[trigger] words[i], k),
    ensures
        all_in(spaced(words), k),
    decreases words.len(),
{
    if words.len() > 0 {
        let w = words[0];
        let tail = words.drop_first();
        assert(all_in(w, k));
        assert forall|i: int| 0 <= i < tail.len() implies all_in(#[trigger] tail[i], k) by {
            assert(tail[i] == words[i + 1]);
        }
        lemma_spaced_all_in(tail, k);
        let rest = spaced(tail);
        let s = spaced(words);
        assert forall|i: int| 0 <= i < s.len() implies in_class(#[trigger] s[i], k) by {
            if i == 0 {
            } else if i < 1 + w.len() {
                assert(s[i] == w[i - 1]);
                assert(in_class(w[i - 1], k));
            } else {
                assert(s[i] == rest[i - 1 - w.len()]);
                assert(in_class(rest[i - 1 - w.len()], k));
            }
        }
    }
}

/// Whether the times that a kind holds can be written and read back.
pub open spec fn kind_ok(kind: KindView) -> bool {
    match kind {
        KindView::Note => true,
        KindView::Todo(None) => true,
        KindView::Todo(Some(t)) => time_ok(t),
        KindView::Reminder(t) => time_ok(t),
    }
}

/// An id that can stand in a header: without white space, `=` and `]`.
pub open spec fn id_ok(uuid: Option<Seq<char>>) -> bool {
    match uuid {
        Some(u) => all_in(u, CharClass::Word) && all_in(u, CharClass::Not('=')) && all_in(
            u,
            CharClass::Not(']'),
        ),
        None => true,
    }
}

/// A text of the fixed shape of a time is a plain word that starts with a
/// digit.
pub proof fn lemma_shape_plain(t: Seq<char>)
    requires
        timestamp_shape(t),
    ensures
        plain_word(t),
        crate::text::is_digit(t[0]),
{
    assert forall|i: int| 0 <= i < t.len() implies in_class(#[trigger] t[i], CharClass::Word)
        && in_class(t[i], CharClass::Not(']')) by {
        if i < 5 {
        } else if i < 10 {
        } else if i < 15 {
        } else if i < 20 {
        } else {
        }
    }
}

/// What the words of headers are made of.
pub proof fn lemma_header_literals()
    ensures
        "todo"@ == seq!['t', 'o', 'd', 'o'],
        "not-done"@ == seq!['n', 'o', 't', '-', 'd', 'o', 'n', 'e'],
        "remind"@ == seq!['r', 'e', 'm', 'i', 'n', 'd'],
        "on"@ == seq!['o', 'n'],
        "id="@ == seq!['i', 'd', '='],
        plain_word("todo"@),
        plain_word("not-done"@),
        plain_word("remind"@),
        plain_word("on"@),
{
    reveal_strlit("todo");
    reveal_strlit("not-done");
    reveal_strlit("remind");
    reveal_strlit("on");
    reveal_strlit("id=");
    assert("todo"@ =~= seq!['t', 'o', 'd', 'o']);
    assert("not-done"@ =~= seq!['n', 'o', 't', '-', 'd', 'o', 'n', 'e']);
    assert("remind"@ =~= seq!['r', 'e', 'm', 'i', 'n', 'd']);
    assert("on"@ =~= seq!['o', 'n']);
    assert("id="@ =~= seq!['i', 'd', '=']);
}

/// The word of a header that holds an id gives the id back.
proof fn lemma_id_word(u: Seq<char>)
    requires
        id_ok(Some(u)),
    ensures
        plain_word("id="@ + u),
        has_prefix("id="@ + u, "id="@),
        word_id("id="@ + u) == u,
{
    lemma_header_literals();
    let w = "id="@ + u;
    assert forall|i: int| 0 <= i < w.len() implies in_class(#[trigger] w[i], CharClass::Word)
        && in_class(w[i], CharClass::Not(']')) by {
        if i >= 3 {
            assert(w[i] == u[i - 3]);
            assert(in_class(u[i - 3], CharClass::Word));
            assert(in_class(u[i - 3], CharClass::Not(']')));
        }
    }
    assert(w.take(3) =~= "id="@);
    assert forall|i: int| w.len() - u.len() <= i < w.len() implies in_class(
        #[trigger] w[i],
        CharClass::Not('='),
    ) by {
        assert(w[i] == u[i - 3]);
        assert(in_class(u[i - 3], CharClass::Not('=')));
    }
    assert(w[2] == '=');
    lemma_tail_run_len(w, CharClass::Not('='), u.len() as int);
    assert(w.skip(w.len() - u.len()) =~= u);
}

/// The words of the header of an entry are plain words, and they are read
/// as the kind and the id of the entry.
pub proof fn lemma_header_words(e: JotView)
    requires
        kind_ok(e.msg_type),
        id_ok(e.uuid),
    ensures
        plain_words(header_words(e)),
        parse_kind(header_words(e)) == Some(e.msg_type),
        find_id(header_words(e)) == e.uuid,
{
    lemma_header_literals();
    let kind = kind_words(e.msg_type);
    let ids = id_words(e.uuid);
    let words = header_words(e);
    match e.uuid {
        Some(u) => {
            lemma_id_word(u);
            assert(ids[0] == "id="@ + u);
            assert(ids[0][0] == 'i');
        },
        None => {},
    }
    match e.msg_type {
        KindView::Note => {
            assert(words =~= ids);
        },
        KindView::Todo(None) => {
            assert(words[0] == "todo"@);
            assert(words[1] == "not-done"@);
        },
        KindView::Todo(Some(t)) => {
            lemma_shape_plain(time_text(t));
            assert(words[0] == "todo"@);
            assert(words[1] == time_text(t));
        },
        KindView::Reminder(t) => {
            lemma_shape_plain(time_text(t));
            assert(words[0] == "remind"@);
            assert(words[1] == "on"@);
            assert(words[2] == time_text(t));
        },
    }
    assert forall|i: int| 0 <= i < words.len() implies plain_word(#[trigger] words[i]) by {
        if i < kind.len() {
            assert(words[i] == kind[i]);
        } else {
            assert(words[i] == ids[i - kind.len()]);
        }
    }
    lemma_find_id_after(kind, ids);
    assert forall|i: int| 0 <= i < kind.len() implies !has_prefix(#[trigger] kind[i], "id="@) by {
        if has_prefix(kind[i], "id="@) {
            assert(kind[i].take(3)[0] == kind[i][0]);
        }
    }
    match e.uuid {
        Some(u) => {
            assert(ids.drop_first() =~= Seq::<Seq<char>>::empty());
        },
        None => {},
    }
}

/// Words that do not start with `id=` are passed over in the search for
/// the id.
proof fn lemma_find_id_after(before: Seq<Seq<char>>, rest: Seq<Seq<char>>)
    ensures
        (forall|i: int| 0 <= i < before.len() ==> !has_prefix(#[trigger] before[i], "id="@))
            ==> find_id(before + rest) == find_id(rest),
    decreases before.len(),
{
    if forall|i: int| 0 <= i < before.len() ==> !has_prefix(#[trigger] before[i], "id="@) {
        if before.len() == 0 {
            assert(before + rest =~= rest);
        } else {
            let all = before + rest;
            assert(all[0] == before[0]);
            assert(all.drop_first() =~= before.drop_first() + rest);
            assert forall|i: int| 0 <= i < before.drop_first().len() implies !has_prefix(
                #[trigger] before.drop_first()[i],
                "id="@,
            ) by {
                assert(before.drop_first()[i] == before[i + 1]);
            }
            lemma_find_id_after(before.drop_first(), rest);
        }
    }
}

/// The header line of an entry is read as the time, the kind and the id
/// of the entry.
pub proof fn lemma_header_parse(e: JotView)
    requires
        time_ok(e.datetime),
        kind_ok(e.msg_type),
        id_ok(e.uuid),
    ensures
        is_header_line(header_text(e)),
        all_in(header_text(e), CharClass::Not('\n')),
        header_text(e)[0] == '[',
        header_text(e).last() == ']',
        text_time(header_text(e).subrange(1, 26)) == Some(e.datetime),
        parse_words(header_suffix(header_text(e))) == Some((e.uuid, e.msg_type)),
{
    let stamp = time_text(e.datetime);
    let words = header_words(e);
    let tail = spaced(words);
    let h = header_text(e);
    lemma_shape_plain(stamp);
    lemma_header_words(e);
    lemma_tokens_spaced(words);
    assert forall|i: int| 0 <= i < words.len() implies all_in(
        #[trigger] words[i],
        CharClass::Not(']'),
    ) by {
        assert(plain_word(words[i]));
    }
    lemma_spaced_all_in(words, CharClass::Not(']'));
    assert forall|i: int| 0 <= i < words.len() implies all_in(
        #[trigger] words[i],
        CharClass::Not('\n'),
    ) by {
        assert(plain_word(words[i]));
        assert forall|j: int| 0 <= j < words[i].len() implies in_class(
            #[trigger] words[i][j],
            CharClass::Not('\n'),
        ) by {
            assert(in_class(words[i][j], CharClass::Word));
        }
    }
    lemma_spaced_all_in(words, CharClass::Not('\n'));
    assert(h.len() == 27 + tail.len());
    assert(h.subrange(1, 26) =~= stamp);
    let after = h.skip(26);
    assert(after =~= tail + seq![']']);
    assert forall|i: int| 0 <= i < tail.len() implies in_class(
        #[trigger] after[i],
        CharClass::Not(']'),
    ) by {
        assert(after[i] == tail[i]);
        assert(in_class(tail[i], CharClass::Not(']')));
    }
    assert(after[tail.len() as int] == ']');
    lemma_run_len(after, CharClass::Not(']'), tail.len() as int);
    assert(header_suffix(h) =~= tail);
    assert forall|i: int| 0 <= i < h.len() implies in_class(
        #[trigger] h[i],
        CharClass::Not('\n'),
    ) by {
        if i == 0 {
        } else if i < 26 {
            assert(h[i] == stamp[i - 1]);
            assert(in_class(stamp[i - 1], CharClass::Word));
        } else if i < 26 + tail.len() {
            assert(h[i] == tail[i - 26]);
            assert(in_class(tail[i - 26], CharClass::Not('\n')));
        } else {
        }
    }
}

/// A message whose lines the journal keeps apart from its own: no
/// carriage return stands before a line feed, and no line is a header
/// line.
pub open spec fn clean(m: Seq<char>) -> bool {
    &&& no_crlf(m)
    &&& forall|i: int| 0 <= i < split_lines(m).len() ==> !is_header_line(#[trigger] split_lines(m)[i])
}

/// A message that comes back from the journal as it was: trimmed and
/// clean.
pub open spec fn message_ok(m: Seq<char>) -> bool {
    is_trimmed(m) && clean(m)
}

/// An entry whose id, message and tags the journal holds without loss:
/// its id has no white space, `=` or `]`, its message comes back as it
/// was, and its tags are those of the message.
pub open spec fn lossless(e: JotView) -> bool {
    &&& id_ok(e.uuid)
    &&& message_ok(e.message)
    &&& e.tags == tags_of(e.message)
}

/// An entry that the journal holds without loss: it is lossless, and its
/// times can be written and read back.
pub open spec fn storable(e: JotView) -> bool {
    &&& time_ok(e.datetime)
    &&& kind_ok(e.msg_type)
    &&& lossless(e)
}

/// The text of an entry is its header line alone, or the header line, a
/// line feed and the message; two line feeds follow.
pub proof fn lemma_entry_text(e: JotView)
    requires
        time_ok(e.datetime),
        kind_ok(e.msg_type),
        id_ok(e.uuid),
        is_trimmed(e.message),
    ensures
        e.message.len() == 0 ==> entry_text(e) == header_text(e) + seq!['\n', '\n'],
        e.message.len() > 0 ==> entry_text(e) == header_text(e) + seq!['\n'] + e.message
            + seq!['\n', '\n'],
{
    lemma_header_parse(e);
    lemma_trim_fixed(e.message);
    let h = header_text(e);
    let m = e.message;
    let x = h + seq!['\n'] + m;
    assert(x[0] == h[0]);
    if m.len() > 0 {
        assert(x.last() == m.last());
        lemma_trim_fixed(x);
    } else {
        assert(x =~= h + seq!['\n']);
        assert(run_len(x, CharClass::Space) == 0);
        assert(trim_start(x) =~= x);
        assert(x[x.len() - 1] == '\n');
        assert(x[x.len() - 2] == h.last());
        lemma_tail_run_len(x, CharClass::Space, 1);
        assert(trim_end(x) =~= h);
    }
}

/// The lines of the text of an entry: the header line, the lines of the
/// message, and an empty line.
pub proof fn lemma_entry_lines(e: JotView)
    requires
        time_ok(e.datetime),
        kind_ok(e.msg_type),
        id_ok(e.uuid),
        is_trimmed(e.message),
    ensures
        split_lines(entry_text(e)) == seq![header_text(e)] + split_lines(e.message) + seq![
            Seq::<char>::empty(),
        ],
        entry_text(e).len() > 0,
        entry_text(e).last() == '\n',
{
    lemma_header_parse(e);
    lemma_entry_text(e);
    let h = header_text(e);
    let m = e.message;
    let blank = Seq::<char>::empty();
    assert(strip_cr(h) == h);
    assert(split_lines(seq!['\n']) =~= seq![blank]) by {
        let s = seq!['\n'];
        assert(run_len(s, CharClass::Not('\n')) == 0);
        assert(s.take(0) =~= blank);
        assert(s.skip(1) =~= blank);
        assert(split_lines(blank) =~= Seq::<Seq<char>>::empty());
    }
    if m.len() == 0 {
        assert(entry_text(e) =~= h + seq!['\n'] + seq!['\n']);
        lemma_split_first_line(h, seq!['\n']);
        assert(split_lines(m) =~= Seq::<Seq<char>>::empty());
        assert(seq![h] + split_lines(m) + seq![blank] =~= seq![h] + seq![blank]);
    } else {
        assert(entry_text(e) =~= h + seq!['\n'] + (m + seq!['\n'] + seq!['\n']));
        lemma_split_first_line(h, m + seq!['\n'] + seq!['\n']);
        assert(!is_space(m.last()));
        lemma_split_lines_then(m, seq!['\n']);
        assert(seq![h] + (split_lines(m) + seq![blank]) =~= seq![h] + split_lines(m) + seq![blank]);
    }
}

/// The lines of a message and an empty line, joined and trimmed, are the
/// message.
pub proof fn lemma_body(m: Seq<char>)
    requires
        is_trimmed(m),
        no_crlf(m),
    ensures
        trim(join_lines(split_lines(m) + seq![Seq::<char>::empty()])) == m,
{
    let blank = Seq::<char>::empty();
    let lines = split_lines(m) + seq![blank];
    assert(lines.drop_last() =~= split_lines(m));
    assert(lines.last() == blank);
    if m.len() == 0 {
        assert(split_lines(m) =~= Seq::<Seq<char>>::empty());
        assert(join_lines(lines) =~= blank);
        lemma_trim_fixed(blank);
    } else {
        assert(!is_space(m.last()));
        lemma_join_split(m);
        let body = join_lines(lines);
        assert(body =~= m + seq!['\n']);
        assert(run_len(body, CharClass::Space) == 0) by {
            assert(body[0] == m[0]);
        }
        assert(trim_start(body) =~= body);
        assert(body[body.len() - 1] == '\n');
        assert(body[body.len() - 2] == m.last());
        lemma_tail_run_len(body, CharClass::Space, 1);
        assert(trim_end(body) =~= m);
    }
}

/// The next header line of lines that follow other lines.
proof fn lemma_next_header_shift(before: Seq<Seq<char>>, lines: Seq<Seq<char>>, k: int)
    requires
        0 <= k <= lines.len(),
    ensures
        next_header(before + lines, before.len() + k) == before.len() + next_header(lines, k),
    decreases lines.len() - k,
{
    let all = before + lines;
    if k < lines.len() {
        assert(all[before.len() + k] == lines[k]);
        if !is_header_line(lines[k]) {
            lemma_next_header_shift(before, lines, k + 1);
        }
    }
}

/// Lines that follow other lines are read as they are read alone.
proof fn lemma_decode_shift(before: Seq<Seq<char>>, lines: Seq<Seq<char>>, k: int, count: nat)
    requires
        0 <= k <= lines.len(),
    ensures
        decode_lines(before + lines, before.len() + k, count) == decode_lines(lines, k, count),
    decreases lines.len() - k,
{
    let all = before + lines;
    let n = before.len() as int;
    crate::jot::lemma_next_header(lines, k);
    lemma_next_header_shift(before, lines, k);
    let head = next_header(lines, k);
    if head < lines.len() {
        crate::jot::lemma_next_header(lines, head + 1);
        lemma_next_header_shift(before, lines, head + 1);
        let end = next_header(lines, head + 1);
        assert(all[n + head] == lines[head]);
        assert(all.subrange(n + head + 1, n + end) =~= lines.subrange(head + 1, end));
        lemma_decode_shift(before, lines, end, count);
        lemma_decode_shift(before, lines, end, count + 1);
    }
}

/// Where the next header line stands, given the lines up to it.
proof fn lemma_next_header_at(lines: Seq<Seq<char>>, from: int, at: int)
    requires
        0 <= from <= at <= lines.len(),
        forall|j: int| from <= j < at ==> !is_header_line(#[trigger] lines[j]),
        at == lines.len() || is_header_line(lines[at]),
    ensures
        next_header(lines, from) == at,
    decreases at - from,
{
    if from < at {
        lemma_next_header_at(lines, from + 1, at);
    }
}

/// The text of an entry, followed by lines that are empty or start with a
/// header line, is read as the entry and then what those lines hold.
proof fn lemma_decode_entry(e: JotView, rest: Seq<Seq<char>>, count: nat)
    requires
        storable(e),
        rest.len() == 0 || is_header_line(rest[0]),
    ensures
        decode_lines(split_lines(entry_text(e)) + rest, 0, count) == seq![numbered(e, count + 1)]
            + decode_lines(rest, 0, count + 1),
{
    lemma_header_parse(e);
    lemma_entry_lines(e);
    lemma_body(e.message);
    let h = header_text(e);
    let blank = Seq::<char>::empty();
    let mine = split_lines(entry_text(e));
    let all = mine + rest;
    let body_lines = split_lines(e.message) + seq![blank];
    assert(mine =~= seq![h] + body_lines);
    assert(all[0] == h);
    assert(next_header(all, 0) == 0);
    assert forall|j: int| 1 <= j < mine.len() implies !is_header_line(#[trigger] all[j]) by {
        assert(all[j] == body_lines[j - 1]);
        if j - 1 < split_lines(e.message).len() {
            assert(body_lines[j - 1] == split_lines(e.message)[j - 1]);
        } else {
            assert(body_lines[j - 1] == blank);
        }
    }
    if rest.len() > 0 {
        assert(all[mine.len() as int] == rest[0]);
    }
    lemma_next_header_at(all, 1, mine.len() as int);
    assert(all.subrange(1, mine.len() as int) =~= body_lines);
    assert(parse_entry(h, join_lines(body_lines)) == Some(numbered(e, 0)));
    assert(numbered(numbered(e, 0), count + 1) == numbered(e, count + 1));
    lemma_decode_shift(mine, rest, 0, count + 1);
}

/// The text of a journal of one entry is the text of the entry.
proof fn lemma_journal_single(e: JotView)
    ensures
        journal_text(seq![e]) == entry_text(e),
{
    let one = seq![e];
    assert(one.drop_last() =~= Seq::<JotView>::empty());
    assert(one.last() == e);
    assert(journal_text(one.drop_last()) =~= Seq::<char>::empty());
    assert(journal_text(one) == journal_text(one.drop_last()) + entry_text(one.last()));
    assert(Seq::<char>::empty() + entry_text(e) =~= entry_text(e));
}

/// The first line of the text of an entry is its header line.
proof fn lemma_entry_first_line(e: JotView)
    requires
        storable(e),
    ensures
        split_lines(entry_text(e)).len() > 0,
        split_lines(entry_text(e))[0] == header_text(e),
        is_header_line(header_text(e)),
        entry_text(e).len() > 0,
        entry_text(e).last() == '\n',
{
    lemma_header_parse(e);
    lemma_entry_lines(e);
}

/// The entries numbered, the first taken apart from the others.
proof fn lemma_renumbered_front(entries: Seq<JotView>, count: nat)
    requires
        entries.len() > 0,
    ensures
        seq![numbered(entries[0], count + 1)] + renumbered(entries.drop_first(), count + 1)
            == renumbered(entries, count),
{
    let tail = entries.drop_first();
    let left = seq![numbered(entries[0], count + 1)] + renumbered(tail, count + 1);
    let right = renumbered(entries, count);
    assert(left.len() == right.len());
    assert forall|i: int| 0 <= i < left.len() implies left[i] == right[i] by {
        if i > 0 {
            assert(left[i] == renumbered(tail, count + 1)[i - 1]);
            assert(tail[i - 1] == entries[i]);
        }
    }
    assert(left =~= right);
}

/// The text of a journal starts with the text of its first entry.
proof fn lemma_journal_front(entries: Seq<JotView>)
    requires
        entries.len() > 0,
    ensures
        journal_text(entries) == entry_text(entries[0]) + journal_text(entries.drop_first()),
    decreases entries.len(),
{
    if entries.len() == 1 {
        lemma_journal_single(entries[0]);
        assert(entries =~= seq![entries[0]]);
        assert(entries.drop_first() =~= Seq::<JotView>::empty());
        assert(journal_text(entries.drop_first()) =~= Seq::<char>::empty());
        assert(entry_text(entries[0]) + Seq::<char>::empty() =~= entry_text(entries[0]));
    } else {
        lemma_journal_front(entries.drop_last());
        assert(entries.drop_last().drop_first() =~= entries.drop_first().drop_last());
        assert(entries.drop_last()[0] == entries[0]);
        assert(entries.drop_first().last() == entries.last());
        assert(entry_text(entries[0]) + journal_text(entries.drop_first().drop_last())
            + entry_text(entries.last()) =~= entry_text(entries[0]) + (journal_text(
            entries.drop_first().drop_last(),
        ) + entry_text(entries.last())));
    }
}

/// The entries with their places in a journal set, the first entry
/// coming after `count` others.
pub open spec fn renumbered(entries: Seq<JotView>, count: nat) -> Seq<JotView> {
    Seq::new(entries.len(), |i: int| numbered(entries[i], (count + 1 + i) as nat))
}

/// Whether every one of the entries is storable.
pub open spec fn all_storable(entries: Seq<JotView>) -> bool {
    forall|i: int| 0 <= i < entries.len() ==> storable(#[trigger] entries[i])
}

/// The text of a journal is read as its entries, numbered in their order.
proof fn lemma_decode_journal(entries: Seq<JotView>, count: nat)
    requires
        all_storable(entries),
    ensures
        decode_lines(split_lines(journal_text(entries)), 0, count) == renumbered(entries, count),
        entries.len() > 0 ==> split_lines(journal_text(entries)).len() > 0 && is_header_line(
            split_lines(journal_text(entries))[0],
        ),
    decreases entries.len(),
{
    if entries.len() == 0 {
        assert(split_lines(journal_text(entries)) =~= Seq::<Seq<char>>::empty());
        assert(decode_lines(split_lines(journal_text(entries)), 0, count) =~= renumbered(
            entries,
            count,
        ));
    } else {
        let e = entries[0];
        let tail = entries.drop_first();
        assert(storable(e));
        assert(all_storable(tail)) by {
            assert forall|i: int| 0 <= i < tail.len() implies storable(#[trigger] tail[i]) by {
                assert(tail[i] == entries[i + 1]);
            }
        }
        lemma_journal_front(entries);
        lemma_entry_first_line(e);
        lemma_split_lines_concat(entry_text(e), journal_text(tail));
        let mine = split_lines(entry_text(e));
        let rest = split_lines(journal_text(tail));
        lemma_decode_journal(tail, count + 1);
        lemma_decode_entry(e, rest, count);
        assert((mine + rest)[0] == mine[0]);
        lemma_renumbered_front(entries, count);
    }
}

/// Writing entries as a journal and reading the journal gives the entries
/// back, numbered in their order, where every entry is storable.
pub proof fn lemma_round_trip(entries: Seq<JotView>)
    requires
        all_storable(entries),
    ensures
        decode(journal_text(entries)) == renumbered(entries, 0),
{
    lemma_decode_journal(entries, 0);
}

/// Entries that are numbered in their order are their own renumbering.
pub proof fn lemma_renumbered_same(entries: Seq<JotView>)
    requires
        forall|i: int| 0 <= i < entries.len() ==> (#[trigger] entries[i]).id == i + 1,
    ensures
        renumbered(entries, 0) == entries,
{
    assert(renumbered(entries, 0) =~= entries) by {
        assert forall|i: int| 0 <= i < entries.len() implies renumbered(entries, 0)[i]
            == entries[i] by {
            assert(entries[i].id == i + 1);
        }
    }
}

/// Writing one entry and reading it gives the entry back, as the first of
/// a journal, where the entry is storable.
pub proof fn lemma_entry_round_trip(e: JotView)
    requires
        storable(e),
    ensures
        decode(entry_text(e)) == seq![numbered(e, 1)],
{
    let one = seq![e];
    lemma_journal_single(e);
    lemma_round_trip(one);
    assert(renumbered(one, 0) =~= seq![numbered(e, 1)]);
}

/// Every word of a text is a run of the text without white space: it is
/// not empty, and it holds no character that the text does not hold.
pub proof fn lemma_tokens_chars(s: Seq<char>, k: CharClass)
    requires
        all_in(s, k),
    ensures
        forall|i: int|
            0 <= i < tokens(s).len() ==> {
                &&& (#[trigger] tokens(s)[i]).len() > 0
                &&& all_in(tokens(s)[i], CharClass::Word)
                &&& all_in(tokens(s)[i], k)
            },
    decreases s.len(),
{
    if s.len() == 0 {
        assert(tokens(s).len() == 0);
    } else if is_space(s[0]) {
        let t = s.drop_first();
        assert forall|j: int| 0 <= j < t.len() implies in_class(#[trigger] t[j], k) by {
            assert(t[j] == s[j + 1]);
        }
        lemma_tokens_chars(t, k);
        assert(tokens(s) == tokens(t));
    } else {
        lemma_run_len_bounds(s, CharClass::Word);
        let n = run_len(s, CharClass::Word) as int;
        let w = s.take(n);
        let t = s.skip(n);
        assert(tokens(s) == seq![w] + tokens(t));
        assert(n >= 1);
        assert forall|j: int| 0 <= j < t.len() implies in_class(#[trigger] t[j], k) by {
            assert(t[j] == s[n + j]);
        }
        lemma_tokens_chars(t, k);
        assert forall|j: int| 0 <= j < w.len() implies in_class(#[trigger] w[j], CharClass::Word)
            && in_class(w[j], k) by {
            assert(w[j] == s[j]);
        }
        assert forall|i: int| 0 <= i < tokens(s).len() implies {
            &&& (#[trigger] tokens(s)[i]).len() > 0
            &&& all_in(tokens(s)[i], CharClass::Word)
            &&& all_in(tokens(s)[i], k)
        } by {
            if i > 0 {
                assert(tokens(s)[i] == tokens(t)[i - 1]);
            } else {
                assert(tokens(s)[0] == w);
            }
        }
    }
}

/// The id found among the words of a header has no white space, `=` or
/// `]`, where the words have no white space and no `]`.
proof fn lemma_found_id(words: Seq<Seq<char>>)
    requires
        forall|i: int|
            0 <= i < words.len() ==> all_in(#[trigger] words[i], CharClass::Word) && all_in(
                words[i],
                CharClass::Not(']'),
            ),
    ensures
        id_ok(find_id(words)),
    decreases words.len(),
{
    if words.len() == 0 {
    } else if has_prefix(words[0], "id="@) {
        let w = words[0];
        let u = word_id(w);
        lemma_tail_run_len_bounds(w, CharClass::Not('='));
        let from = w.len() - tail_run_len(w, CharClass::Not('='));
        assert(all_in(w, CharClass::Word) && all_in(w, CharClass::Not(']')));
        assert forall|j: int| 0 <= j < u.len() implies in_class(#[trigger] u[j], CharClass::Word)
            && in_class(u[j], CharClass::Not('=')) && in_class(u[j], CharClass::Not(']')) by {
            assert(u[j] == w[from + j]);
            assert(in_class(w[from + j], CharClass::Word));
            assert(in_class(w[from + j], CharClass::Not(']')));
            assert(in_class(w[from + j], CharClass::Not('=')));
        }
    } else {
        let rest = words.drop_first();
        assert forall|i: int| 0 <= i < rest.len() implies all_in(
            #[trigger] rest[i],
            CharClass::Word,
        ) && all_in(rest[i], CharClass::Not(']')) by {
            assert(rest[i] == words[i + 1]);
        }
        lemma_found_id(rest);
    }
}

/// What holds of every entry that was read: its message is trimmed, its
/// tags are those of the message, and its id has no white space, `=` or
/// `]`.
pub open spec fn well_read(e: JotView) -> bool {
    &&& is_trimmed(e.message)
    &&& e.tags == tags_of(e.message)
    &&& id_ok(e.uuid)
}

/// Whether the entries are well read and numbered from 1 in their order.
pub open spec fn read_in_order(entries: Seq<JotView>) -> bool {
    forall|i: int|
        0 <= i < entries.len() ==> well_read(#[trigger] entries[i]) && entries[i].id == i + 1
}

/// An entry read from a header line and a body is well read.
pub proof fn lemma_parse_entry(header: Seq<char>, body: Seq<char>)
    ensures
        parse_entry(header, body) matches Some(e) ==> well_read(e) && e.id == 0,
{
    if parse_entry(header, body) is Some {
        lemma_trim_fixed(body);
        let after = header.skip(26);
        lemma_run_len_bounds(after, CharClass::Not(']'));
        let suffix = header_suffix(header);
        assert forall|j: int| 0 <= j < suffix.len() implies in_class(
            #[trigger] suffix[j],
            CharClass::Not(']'),
        ) by {
            assert(suffix[j] == after[j]);
        }
        lemma_tokens_chars(suffix, CharClass::Not(']'));
        lemma_found_id(tokens(suffix));
    }
}

/// The entries read from lines are well read and numbered in their
/// order.
pub proof fn lemma_decode_lines(lines: Seq<Seq<char>>, from: int, count: nat)
    requires
        0 <= from <= lines.len(),
    ensures
        forall|i: int|
            0 <= i < decode_lines(lines, from, count).len() ==> {
                &&& well_read(#[trigger] decode_lines(lines, from, count)[i])
                &&& decode_lines(lines, from, count)[i].id == count + 1 + i
            },
    decreases lines.len() - from,
{
    crate::jot::lemma_next_header(lines, from);
    let head = next_header(lines, from);
    if head < lines.len() {
        crate::jot::lemma_next_header(lines, head + 1);
        let end = next_header(lines, head + 1);
        let body = join_lines(lines.subrange(head + 1, end));
        lemma_parse_entry(lines[head], body);
        lemma_decode_lines(lines, end, count);
        lemma_decode_lines(lines, end, count + 1);
        let all = decode_lines(lines, from, count);
        assert forall|i: int| 0 <= i < all.len() implies {
            &&& well_read(#[trigger] all[i])
            &&& all[i].id == count + 1 + i
        } by {
            match parse_entry(lines[head], body) {
                Some(e) => {
                    if i > 0 {
                        assert(all[i] == decode_lines(lines, end, count + 1)[i - 1]);
                    } else {
                        assert(all[0] == numbered(e, count + 1));
                    }
                },
                None => {},
            }
        }
    }
}

/// What must hold of an entry that was read for it to be read again as it
/// is after it was written: its times can be written and read back, and
/// its message is clean.
pub open spec fn rewritable(e: JotView) -> bool {
    &&& time_ok(e.datetime)
    &&& kind_ok(e.msg_type)
    &&& clean(e.message)
}

/// Reading a journal, writing the entries and reading them again gives
/// the same entries as the first reading, where every entry of the first
/// reading is rewritable.
pub proof fn lemma_reencode_idempotent(text: Seq<char>)
    requires
        forall|i: int| 0 <= i < decode(text).len() ==> rewritable(#[trigger] decode(text)[i]),
    ensures
        decode(journal_text(decode(text))) == decode(text),
{
    let entries = decode(text);
    lemma_decode_lines(split_lines(text), 0, 0);
    assert forall|i: int| 0 <= i < entries.len() implies storable(#[trigger] entries[i]) by {
        assert(rewritable(entries[i]));
        assert(well_read(entries[i]));
    }
    lemma_round_trip(entries);
    assert forall|i: int| 0 <= i < entries.len() implies (#[trigger] entries[i]).id == i + 1 by {
        assert(well_read(entries[i]));
    }
    lemma_renumbered_same(entries);
}

/// A carriage return and a line feed after a text that does not end with
/// a line feed end the last line of that text and change no line.
pub proof fn lemma_split_lines_then_cr(x: Seq<char>, y: Seq<char>)
    requires
        x.len() > 0,
        x.last() != '\n',
    ensures
        split_lines(x + seq!['\r', '\n'] + y) == split_lines(x) + split_lines(y),
    decreases x.len(),
{
    lemma_run_len_bounds(x, CharClass::Not('\n'));
    let n = run_len(x, CharClass::Not('\n')) as int;
    if n == x.len() {
        let line = x + seq!['\r'];
        assert forall|i: int| 0 <= i < line.len() implies in_class(
            #[trigger] line[i],
            CharClass::Not('\n'),
        ) by {
            if i < x.len() {
                assert(line[i] == x[i]);
                assert(in_class(x[i], CharClass::Not('\n')));
            }
        }
        lemma_split_first_line(line, y);
        assert(x + seq!['\r', '\n'] + y =~= line + seq!['\n'] + y);
        assert(line.last() == '\r');
        assert(line.drop_last() =~= x);
    } else {
        lemma_cut_line(x);
        let line = x.take(n);
        let x2 = x.skip(n + 1);
        assert(x[n] == '\n');
        assert(x2.len() > 0);
        assert(x2.last() == x.last());
        assert(x + seq!['\r', '\n'] + y =~= line + seq!['\n'] + (x2 + seq!['\r', '\n'] + y));
        lemma_split_first_line(line, x2 + seq!['\r', '\n'] + y);
        lemma_split_lines_then_cr(x2, y);
        assert(seq![strip_cr(line)] + (split_lines(x2) + split_lines(y)) =~= seq![strip_cr(line)]
            + split_lines(x2) + split_lines(y));
    }
}

/// What must stand between a journal and an entry added to it so that
/// the entry starts on a line of its own and no line of the journal
/// changes: nothing after an empty journal or a line feed, a carriage
/// return and a line feed after a carriage return, and a line feed after
/// anything else.
pub open spec fn line_end_for(journal: Seq<char>) -> Seq<char> {
    if journal.len() == 0 || journal.last() == '\n' {
        Seq::empty()
    } else if journal.last() == '\r' {
        seq!['\r', '\n']
    } else {
        seq!['\n']
    }
}

/// The text of a journal with an entry added at its end.
pub open spec fn appended(journal: Seq<char>, e: JotView) -> Seq<char> {
    journal + line_end_for(journal) + entry_text(e)
}

/// Lines that are followed by a header line, or by nothing, have the same
/// header lines as when they stand alone.
proof fn lemma_next_header_prefix(lines: Seq<Seq<char>>, rest: Seq<Seq<char>>, k: int)
    requires
        0 <= k <= lines.len(),
        rest.len() == 0 || is_header_line(rest[0]),
    ensures
        next_header(lines + rest, k) == next_header(lines, k),
    decreases lines.len() - k,
{
    let all = lines + rest;
    if k < lines.len() {
        assert(all[k] == lines[k]);
        if !is_header_line(lines[k]) {
            lemma_next_header_prefix(lines, rest, k + 1);
        }
    } else if rest.len() > 0 {
        assert(all[k] == rest[0]);
    }
}

/// Lines that are followed by a header line, or by nothing, are read as
/// when they stand alone, and what follows them is read after them.
proof fn lemma_decode_prefix(lines: Seq<Seq<char>>, rest: Seq<Seq<char>>, k: int, count: nat)
    requires
        0 <= k <= lines.len(),
        rest.len() == 0 || is_header_line(rest[0]),
    ensures
        decode_lines(lines + rest, k, count) == decode_lines(lines, k, count) + decode_lines(
            rest,
            0,
            count + decode_lines(lines, k, count).len(),
        ),
    decreases lines.len() - k,
{
    let all = lines + rest;
    crate::jot::lemma_next_header(lines, k);
    lemma_next_header_prefix(lines, rest, k);
    let head = next_header(lines, k);
    if head >= lines.len() {
        assert(decode_lines(lines, k, count) =~= Seq::<JotView>::empty());
        if rest.len() == 0 {
            assert(all =~= lines);
            assert(decode_lines(rest, 0, count) =~= Seq::<JotView>::empty());
        } else {
            crate::jot::lemma_decode_from_header(all, k, count);
            lemma_decode_shift(lines, rest, 0, count);
        }
        assert(Seq::<JotView>::empty() + decode_lines(rest, 0, count) =~= decode_lines(
            rest,
            0,
            count,
        ));
    } else {
        crate::jot::lemma_next_header(lines, head + 1);
        lemma_next_header_prefix(lines, rest, head + 1);
        let end = next_header(lines, head + 1);
        assert(all[head] == lines[head]);
        assert(all.subrange(head + 1, end) =~= lines.subrange(head + 1, end));
        lemma_decode_prefix(lines, rest, end, count);
        lemma_decode_prefix(lines, rest, end, count + 1);
        match parse_entry(lines[head], join_lines(lines.subrange(head + 1, end))) {
            Some(e) => {
                let first = seq![numbered(e, count + 1)];
                let mine = decode_lines(lines, end, count + 1);
                let after = decode_lines(rest, 0, count + 1 + mine.len());
                assert(decode_lines(lines, k, count) == first + mine);
                assert(first + (mine + after) =~= (first + mine) + after);
            },
            None => {},
        }
    }
}

/// A journal with a storable entry added is read as the entries of the
/// journal followed by the new entry.
pub proof fn lemma_append(journal: Seq<char>, e: JotView)
    requires
        storable(e),
    ensures
        decode(appended(journal, e)) == decode(journal) + seq![
            numbered(e, decode(journal).len() + 1),
        ],
{
    let lines = split_lines(journal);
    let mine = split_lines(entry_text(e));
    let text = entry_text(e);
    lemma_entry_first_line(e);
    if journal.len() == 0 || journal.last() == '\n' {
        assert(appended(journal, e) =~= journal + text);
        lemma_split_lines_concat(journal, text);
    } else if journal.last() == '\r' {
        assert(appended(journal, e) =~= journal + seq!['\r', '\n'] + text);
        lemma_split_lines_then_cr(journal, text);
    } else {
        assert(appended(journal, e) =~= journal + seq!['\n'] + text);
        lemma_split_lines_then(journal, text);
    }
    assert(split_lines(appended(journal, e)) == lines + mine);
    lemma_decode_prefix(lines, mine, 0, 0);
    let before = decode_lines(lines, 0, 0);
    let none = Seq::<Seq<char>>::empty();
    lemma_decode_entry(e, none, before.len());
    assert(mine + none =~= mine);
    assert(decode_lines(none, 0, before.len() + 1) =~= Seq::<JotView>::empty());
    assert(seq![numbered(e, before.len() + 1)] + Seq::<JotView>::empty() =~= seq![
        numbered(e, before.len() + 1),
    ]);
}

} // verus!
