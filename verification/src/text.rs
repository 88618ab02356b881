//! Character-level helpers shared by the journal codec and the time phrases.
//!
//! All text is handled as a sequence of characters. The helpers here find
//! runs of one class of character, cut text at such runs, and read numbers.

use vstd::prelude::*;

verus! {

/// `String::push` appends one character to the end of the string.
pub assume_specification[ String::push ](s: &mut String, c: char)
    ensures
        final(s)@ == old(s)@.push(c),
;

/// The classes of character that the scanners tell apart.
#[derive(Clone, Copy, Debug, PartialEq, Eq, Structural)]
pub enum CharClass {
    /// White space.
    Space,
    /// Anything but white space.
    Word,
    /// The digits `0` to `9`.
    Digit,
    /// What may follow the first letter of a tag: letters, digits, `_`.
    TagTail,
    /// Anything but the character given.
    Not(char),
}

/// White space as Unicode defines it (`White_Space`).
pub open spec fn is_space(c: char) -> bool {
    let n = c as u32;
    ||| 0x09 <= n <= 0x0D
    ||| n == 0x20
    ||| n == 0x85
    ||| n == 0xA0
    ||| n == 0x1680
    ||| 0x2000 <= n <= 0x200A
    ||| n == 0x2028
    ||| n == 0x2029
    ||| n == 0x202F
    ||| n == 0x205F
    ||| n == 0x3000
}

/// The digits `0` to `9`.
pub open spec fn is_digit(c: char) -> bool {
    '0' <= c <= '9'
}

/// The letters `a` to `z` and `A` to `Z`.
pub open spec fn is_letter(c: char) -> bool {
    'a' <= c <= 'z' || 'A' <= c <= 'Z'
}

/// Whether `c` belongs to the class `k`.
pub open spec fn in_class(c: char, k: CharClass) -> bool {
    match k {
        CharClass::Space => is_space(c),
        CharClass::Word => !is_space(c),
        CharClass::Digit => is_digit(c),
        CharClass::TagTail => is_letter(c) || is_digit(c) || c == '_',
        CharClass::Not(x) => c != x,
    }
}

/// How many characters at the start of `s` belong to `k`.
pub open spec fn run_len(s: Seq<char>, k: CharClass) -> nat
    decreases s.len(),
{
    if s.len() > 0 && in_class(s[0], k) {
        1 + run_len(s.drop_first(), k)
    } else {
        0
    }
}

/// How many characters at the end of `s` belong to `k`.
pub open spec fn tail_run_len(s: Seq<char>, k: CharClass) -> nat
    decreases s.len(),
{
    if s.len() > 0 && in_class(s.last(), k) {
        1 + tail_run_len(s.drop_last(), k)
    } else {
        0
    }
}

/// Whether every character of `s` belongs to `k`.
pub open spec fn all_in(s: Seq<char>, k: CharClass) -> bool {
    forall|i: int| 0 <= i < s.len() ==> in_class(#[trigger] s[i], k)
}

/// A run is the longest prefix in its class: it ends at the first
/// character outside the class.
pub proof fn lemma_run_len(s: Seq<char>, k: CharClass, n: int)
    requires
        0 <= n <= s.len(),
        forall|i: int| 0 <= i < n ==> in_class(#[trigger] s[i], k),
        n == s.len() || !in_class(s[n], k),
    ensures
        run_len(s, k) == n,
    decreases n,
{
    if n > 0 {
        let t = s.drop_first();
        assert forall|i: int| 0 <= i < n - 1 implies in_class(#[trigger] t[i], k) by {
            assert(t[i] == s[i + 1]);
        }
        lemma_run_len(t, k, n - 1);
    }
}

/// What a run is made of, and where it stops.
pub proof fn lemma_run_len_bounds(s: Seq<char>, k: CharClass)
    ensures
        run_len(s, k) <= s.len(),
        forall|i: int| 0 <= i < run_len(s, k) ==> in_class(#[trigger] s[i], k),
        run_len(s, k) == s.len() || !in_class(s[run_len(s, k) as int], k),
    decreases s.len(),
{
    if s.len() > 0 && in_class(s[0], k) {
        let t = s.drop_first();
        lemma_run_len_bounds(t, k);
        assert forall|i: int| 0 <= i < run_len(s, k) implies in_class(#[trigger] s[i], k) by {
            if i > 0 {
                assert(s[i] == t[i - 1]);
            }
        }
        if run_len(s, k) != s.len() {
            assert(s[run_len(s, k) as int] == t[run_len(t, k) as int]);
        }
    }
}

/// A run at the end is the longest suffix in its class.
pub proof fn lemma_tail_run_len(s: Seq<char>, k: CharClass, n: int)
    requires
        0 <= n <= s.len(),
        forall|i: int| s.len() - n <= i < s.len() ==> in_class(#[trigger] s[i], k),
        n == s.len() || !in_class(s[s.len() - n - 1], k),
    ensures
        tail_run_len(s, k) == n,
    decreases n,
{
    if n > 0 {
        let t = s.drop_last();
        assert forall|i: int| t.len() - (n - 1) <= i < t.len() implies in_class(
            #[trigger] t[i],
            k,
        ) by {
            assert(t[i] == s[i]);
        }
        lemma_tail_run_len(t, k, n - 1);
    }
}

/// What a run at the end is made of, and where it starts.
pub proof fn lemma_tail_run_len_bounds(s: Seq<char>, k: CharClass)
    ensures
        tail_run_len(s, k) <= s.len(),
        forall|i: int|
            s.len() - tail_run_len(s, k) <= i < s.len() ==> in_class(#[trigger] s[i], k),
        tail_run_len(s, k) == s.len() || !in_class(s[s.len() - tail_run_len(s, k) - 1], k),
    decreases s.len(),
{
    if s.len() > 0 && in_class(s.last(), k) {
        let t = s.drop_last();
        lemma_tail_run_len_bounds(t, k);
        assert forall|i: int| s.len() - tail_run_len(s, k) <= i < s.len() implies in_class(
            #[trigger] s[i],
            k,
        ) by {
            if i < s.len() - 1 {
                assert(s[i] == t[i]);
            }
        }
        if tail_run_len(s, k) != s.len() {
            assert(s[s.len() - tail_run_len(s, k) - 1] == t[t.len() - tail_run_len(t, k) - 1]);
        }
    }
}

/// Whether `c` is white space, as `char::is_whitespace` has it.
pub fn is_whitespace(c: char) -> (r: bool)
    ensures
        r == is_space(c),
{
    let n: u32 = c as u32;
    (0x09 <= n && n <= 0x0D) || n == 0x20 || n == 0x85 || n == 0xA0 || n == 0x1680 || (0x2000 <= n
        && n <= 0x200A) || n == 0x2028 || n == 0x2029 || n == 0x202F || n == 0x205F || n == 0x3000
}

/// Whether `c` is one of the digits `0` to `9`.
pub fn is_ascii_digit(c: char) -> (r: bool)
    ensures
        r == is_digit(c),
{
    '0' <= c && c <= '9'
}

/// Whether `c` is one of the letters `a` to `z` and `A` to `Z`.
pub fn is_ascii_letter(c: char) -> (r: bool)
    ensures
        r == is_letter(c),
{
    ('a' <= c && c <= 'z') || ('A' <= c && c <= 'Z')
}

/// Whether `c` belongs to the class `k`.
pub fn char_in_class(c: char, k: CharClass) -> (r: bool)
    ensures
        r == in_class(c, k),
{
    match k {
        CharClass::Space => is_whitespace(c),
        CharClass::Word => !is_whitespace(c),
        CharClass::Digit => is_ascii_digit(c),
        CharClass::TagTail => is_ascii_letter(c) || is_ascii_digit(c) || c == '_',
        CharClass::Not(x) => c != x,
    }
}

/// Copies the characters of `s` into a vector.
pub fn to_chars(s: &str) -> (v: Vec<char>)
    ensures
        v@ == s@,
{
    let mut v: Vec<char> = Vec::new();
    for c in it: s.chars()
        invariant
            it.seq() == s@,
            v@ == it.seq().take(it.index() as int),
    {
        v.push(c);
    }
    assert(v@ == s@.take(s@.len() as int));
    v
}

/// Builds a string from the characters of `v`.
pub fn from_chars(v: &Vec<char>) -> (s: String)
    ensures
        s@ == v@,
{
    let mut s: String = String::new();
    let mut i: usize = 0;
    while i < v.len()
        invariant
            i <= v.len(),
            s@ == v@.take(i as int),
        decreases v.len() - i,
    {
        s.push(v[i]);
        assert(v@.take(i + 1) == v@.take(i as int).push(v@[i as int]));
        i += 1;
    }
    assert(v@.take(v.len() as int) == v@);
    s
}

/// The characters of `v` from `from` up to `to`.
pub(crate) fn sub_chars(v: &Vec<char>, from: usize, to: usize) -> (r: Vec<char>)
    requires
        from <= to <= v.len(),
    ensures
        r@ == v@.subrange(from as int, to as int),
{
    let mut r: Vec<char> = Vec::new();
    let mut i: usize = from;
    while i < to
        invariant
            from <= i <= to <= v.len(),
            r@ == v@.subrange(from as int, i as int),
        decreases to - i,
    {
        r.push(v[i]);
        assert(v@.subrange(from as int, i + 1) == v@.subrange(from as int, i as int).push(
            v@[i as int],
        ));
        i += 1;
    }
    r
}

/// Appends the characters of `tail` to `v`.
pub fn append_chars(v: &mut Vec<char>, tail: &Vec<char>)
    ensures
        final(v)@ == old(v)@ + tail@,
{
    let mut i: usize = 0;
    while i < tail.len()
        invariant
            i <= tail.len(),
            v@ == old(v)@ + tail@.take(i as int),
        decreases tail.len() - i,
    {
        v.push(tail[i]);
        assert(tail@.take(i + 1) == tail@.take(i as int).push(tail@[i as int]));
        i += 1;
    }
    assert(tail@.take(tail.len() as int) == tail@);
}

/// Appends the characters of the text `tail` to `v`.
pub fn append_str(v: &mut Vec<char>, tail: &str)
    ensures
        final(v)@ == old(v)@ + tail@,
{
    let t = to_chars(tail);
    append_chars(v, &t);
}

/// Whether two texts hold the same characters.
pub fn same_chars(a: &Vec<char>, b: &Vec<char>) -> (r: bool)
    ensures
        r == (a@ == b@),
{
    if a.len() != b.len() {
        return false;
    }
    let mut i: usize = 0;
    while i < a.len()
        invariant
            i <= a.len(),
            a.len() == b.len(),
            forall|j: int| 0 <= j < i ==> a@[j] == b@[j],
        decreases a.len() - i,
    {
        if a[i] != b[i] {
            return false;
        }
        i += 1;
    }
    assert(a@ =~= b@);
    true
}

/// Whether `v` holds exactly the characters of `word`.
pub fn is_word(v: &Vec<char>, word: &str) -> (r: bool)
    ensures
        r == (v@ == word@),
{
    let w = to_chars(word);
    same_chars(v, &w)
}

/// Where the run of class `k` that starts at `from` ends.
pub(crate) fn run_end(v: &Vec<char>, from: usize, k: CharClass) -> (end: usize)
    requires
        from <= v.len(),
    ensures
        from <= end <= v.len(),
        end - from == run_len(v@.skip(from as int), k),
        forall|i: int| from <= i < end ==> in_class(#[trigger] v@[i], k),
        end == v.len() || !in_class(v@[end as int], k),
{
    let mut end: usize = from;
    while end < v.len() && char_in_class(v[end], k)
        invariant
            from <= end <= v.len(),
            forall|i: int| from <= i < end ==> in_class(#[trigger] v@[i], k),
        decreases v.len() - end,
    {
        end += 1;
    }
    proof {
        let s = v@.skip(from as int);
        assert forall|i: int| 0 <= i < end - from implies in_class(#[trigger] s[i], k) by {
            assert(s[i] == v@[from + i]);
        }
        lemma_run_len(s, k, end - from);
    }
    end
}

/// Where the run of class `k` that ends just before `to` starts, looking
/// no further back than `from`.
pub(crate) fn run_start(v: &Vec<char>, from: usize, to: usize, k: CharClass) -> (start: usize)
    requires
        from <= to <= v.len(),
    ensures
        from <= start <= to,
        to - start == tail_run_len(v@.subrange(from as int, to as int), k),
        forall|i: int| start <= i < to ==> in_class(#[trigger] v@[i], k),
        start == from || !in_class(v@[start - 1], k),
{
    let mut start: usize = to;
    while start > from && char_in_class(v[start - 1], k)
        invariant
            from <= start <= to <= v.len(),
            forall|i: int| start <= i < to ==> in_class(#[trigger] v@[i], k),
        decreases start,
    {
        start -= 1;
    }
    proof {
        let s = v@.subrange(from as int, to as int);
        assert forall|i: int| s.len() - (to - start) <= i < s.len() implies in_class(
            #[trigger] s[i],
            k,
        ) by {
            assert(s[i] == v@[from + i]);
        }
        lemma_tail_run_len(s, k, to - start);
    }
    start
}

/// `s` without the white space at its start.
pub open spec fn trim_start(s: Seq<char>) -> Seq<char> {
    s.skip(run_len(s, CharClass::Space) as int)
}

/// `s` without the white space at its end.
pub open spec fn trim_end(s: Seq<char>) -> Seq<char> {
    s.take(s.len() - tail_run_len(s, CharClass::Space))
}

/// `s` without the white space at both ends.
pub open spec fn trim(s: Seq<char>) -> Seq<char> {
    trim_end(trim_start(s))
}

/// Whether `s` neither starts nor ends with white space.
pub open spec fn is_trimmed(s: Seq<char>) -> bool {
    s.len() > 0 ==> !is_space(s[0]) && !is_space(s.last())
}

/// A text is trimmed exactly when trimming leaves it as it is.
pub proof fn lemma_trim_fixed(s: Seq<char>)
    ensures
        is_trimmed(s) <==> trim(s) == s,
        is_trimmed(trim(s)),
{
    lemma_run_len_bounds(s, CharClass::Space);
    let t = trim_start(s);
    lemma_tail_run_len_bounds(t, CharClass::Space);
    let u = trim(s);
    if u.len() > 0 {
        assert(u[0] == t[0]);
        assert(t[0] == s[run_len(s, CharClass::Space) as int]);
        assert(u.last() == t[t.len() - tail_run_len(t, CharClass::Space) - 1]);
    }
    if is_trimmed(s) {
        if s.len() > 0 {
            assert(run_len(s, CharClass::Space) == 0);
            assert(t =~= s);
            assert(tail_run_len(t, CharClass::Space) == 0);
        }
        assert(u =~= s);
    }
}

/// `v` without the white space at both ends, as `str::trim` gives it.
pub fn trim_chars(v: &Vec<char>) -> (r: Vec<char>)
    ensures
        r@ == trim(v@),
{
    let from: usize = run_end(v, 0, CharClass::Space);
    let to: usize = run_start(v, from, v.len(), CharClass::Space);
    let r = sub_chars(v, from, to);
    proof {
        assert(v@.skip(0) =~= v@);
        assert(v@.subrange(from as int, v.len() as int) =~= trim_start(v@));
        assert(r@ =~= trim(v@));
    }
    r
}

/// Whether `v` holds nothing but white space.
pub fn is_blank(v: &Vec<char>) -> (r: bool)
    ensures
        r == (trim(v@).len() == 0),
        r == all_in(v@, CharClass::Space),
{
    let end: usize = run_end(v, 0, CharClass::Space);
    proof {
        assert(v@.skip(0) =~= v@);
        lemma_tail_run_len_bounds(trim_start(v@), CharClass::Space);
        if end < v.len() {
            let t = trim_start(v@);
            assert(t[0] == v@[end as int]);
            if tail_run_len(t, CharClass::Space) == t.len() {
                assert(in_class(t[0], CharClass::Space));
            }
        }
    }
    end == v.len()
}

/// The words of `s`: its longest runs without white space, in order.
pub open spec fn tokens(s: Seq<char>) -> Seq<Seq<char>>
    decreases s.len(),
{
    if s.len() == 0 {
        Seq::empty()
    } else if is_space(s[0]) {
        tokens(s.drop_first())
    } else {
        let n = run_len(s, CharClass::Word);
        proof {
            lemma_run_len_bounds(s, CharClass::Word);
        }
        seq![s.take(n as int)] + tokens(s.skip(n as int))
    }
}

/// White space before the first word does not count.
pub proof fn lemma_tokens_skip_spaces(s: Seq<char>, n: int)
    requires
        0 <= n <= s.len(),
        forall|i: int| 0 <= i < n ==> is_space(#[trigger] s[i]),
    ensures
        tokens(s) == tokens(s.skip(n)),
    decreases n,
{
    if n == 0 {
        assert(s.skip(0) =~= s);
    } else {
        let t = s.drop_first();
        assert forall|i: int| 0 <= i < n - 1 implies is_space(#[trigger] t[i]) by {
            assert(t[i] == s[i + 1]);
        }
        lemma_tokens_skip_spaces(t, n - 1);
        assert(t.skip(n - 1) =~= s.skip(n));
    }
}

/// What a sequence of values stands for: the view of each, in order.
pub open spec fn views<T: View>(v: Seq<T>) -> Seq<T::V> {
    Seq::new(v.len(), |i: int| v[i]@)
}

/// Pushing a value pushes its view.
pub proof fn lemma_views_push<T: View>(v: Seq<T>, x: T)
    ensures
        views(v.push(x)) == views(v).push(x@),
{
    assert(views(v.push(x)) =~= views(v).push(x@));
}

/// The words of `v`, as `str::split_whitespace` gives them.
pub fn split_words(v: &Vec<char>) -> (r: Vec<Vec<char>>)
    ensures
        views(r@) == tokens(v@),
{
    let mut r: Vec<Vec<char>> = Vec::new();
    let mut i: usize = 0;
    assert(v@.skip(0) =~= v@);
    assert(views(r@) =~= Seq::<Seq<char>>::empty());
    loop
        invariant
            i <= v.len(),
            tokens(v@) == views(r@) + tokens(v@.skip(i as int)),
        ensures
            views(r@) == tokens(v@),
        decreases v.len() - i,
    {
        let start: usize = run_end(v, i, CharClass::Space);
        proof {
            let s = v@.skip(i as int);
            assert forall|j: int| 0 <= j < start - i implies is_space(#[trigger] s[j]) by {
                assert(s[j] == v@[i + j]);
            }
            lemma_tokens_skip_spaces(s, start - i);
            assert(s.skip(start - i) =~= v@.skip(start as int));
        }
        if start == v.len() {
            proof {
                assert(tokens(v@.skip(start as int)) =~= Seq::<Seq<char>>::empty());
                assert(views(r@) + Seq::<Seq<char>>::empty() =~= views(r@));
            }
            break;
        }
        let end: usize = run_end(v, start, CharClass::Word);
        let word = sub_chars(v, start, end);
        proof {
            let s = v@.skip(start as int);
            assert(s[0] == v@[start as int]);
            assert(s.take(end - start) =~= word@);
            assert(s.skip(end - start) =~= v@.skip(end as int));
            let before = views(r@);
            lemma_views_push(r@, word);
            assert(before + (seq![word@] + tokens(v@.skip(end as int))) =~= before.push(word@)
                + tokens(v@.skip(end as int)));
        }
        r.push(word);
        i = end;
    }
    r
}

/// A line without the carriage return that may end it.
pub open spec fn strip_cr(line: Seq<char>) -> Seq<char> {
    if line.len() > 0 && line.last() == '\r' {
        line.drop_last()
    } else {
        line
    }
}

/// The lines of `s`. A line ends at a line feed, or at a carriage return
/// directly before one; neither belongs to the line. A line feed at the
/// very end starts no further line.
pub open spec fn split_lines(s: Seq<char>) -> Seq<Seq<char>>
    decreases s.len(),
{
    if s.len() == 0 {
        Seq::empty()
    } else {
        let n = run_len(s, CharClass::Not('\n'));
        if n >= s.len() {
            seq![s]
        } else {
            seq![strip_cr(s.take(n as int))] + split_lines(s.skip(n as int + 1))
        }
    }
}

/// The lines of `v`, as `str::lines` gives them.
pub fn lines(v: &Vec<char>) -> (r: Vec<Vec<char>>)
    ensures
        views(r@) == split_lines(v@),
{
    let mut r: Vec<Vec<char>> = Vec::new();
    let mut i: usize = 0;
    assert(v@.skip(0) =~= v@);
    assert(views(r@) =~= Seq::<Seq<char>>::empty());
    while i < v.len()
        invariant
            i <= v.len(),
            split_lines(v@) == views(r@) + split_lines(v@.skip(i as int)),
        decreases v.len() - i,
    {
        let end: usize = run_end(v, i, CharClass::Not('\n'));
        let ghost s = v@.skip(i as int);
        let ghost before = views(r@);
        if end == v.len() {
            let line = sub_chars(v, i, end);
            proof {
                assert(line@ =~= s);
                lemma_views_push(r@, line);
                assert(split_lines(v@.skip(end as int)) =~= Seq::<Seq<char>>::empty());
                assert(before + seq![s] =~= before.push(line@) + Seq::<Seq<char>>::empty());
            }
            r.push(line);
            i = end;
        } else {
            let stop: usize = if end > i && v[end - 1] == '\r' {
                (end - 1) as usize
            } else {
                end
            };
            let line = sub_chars(v, i, stop);
            proof {
                let whole = s.take(end - i);
                assert(whole =~= v@.subrange(i as int, end as int));
                if end > i {
                    assert(whole.last() == v@[end - 1]);
                }
                assert(line@ =~= strip_cr(whole));
                assert(s.skip(end - i + 1) =~= v@.skip(end + 1));
                lemma_views_push(r@, line);
                assert(before + (seq![line@] + split_lines(v@.skip(end + 1))) =~= before.push(
                    line@,
                ) + split_lines(v@.skip(end + 1)));
            }
            r.push(line);
            i = end + 1;
        }
    }
    proof {
        assert(split_lines(v@.skip(i as int)) =~= Seq::<Seq<char>>::empty());
        assert(views(r@) + Seq::<Seq<char>>::empty() =~= views(r@));
    }
    r
}

/// The lines joined again, a line feed between each two.
pub open spec fn join_lines(lines: Seq<Seq<char>>) -> Seq<char>
    decreases lines.len(),
{
    if lines.len() == 0 {
        Seq::empty()
    } else if lines.len() == 1 {
        lines[0]
    } else {
        join_lines(lines.drop_last()) + seq!['\n'] + lines.last()
    }
}

/// Joins the lines from `from` up to `to`, a line feed between each two.
pub(crate) fn join(lines: &Vec<Vec<char>>, from: usize, to: usize) -> (r: Vec<char>)
    requires
        from <= to <= lines.len(),
    ensures
        r@ == join_lines(views(lines@).subrange(from as int, to as int)),
{
    let mut r: Vec<char> = Vec::new();
    let mut i: usize = from;
    let ghost all = views(lines@);
    assert(all.subrange(from as int, from as int) =~= Seq::<Seq<char>>::empty());
    while i < to
        invariant
            from <= i <= to <= lines.len(),
            all == views(lines@),
            r@ == join_lines(all.subrange(from as int, i as int)),
        decreases to - i,
    {
        let ghost before = all.subrange(from as int, i as int);
        let ghost after = all.subrange(from as int, i + 1);
        proof {
            assert(after.drop_last() =~= before);
            assert(after.last() == lines@[i as int]@);
        }
        if i > from {
            r.push('\n');
        }
        append_chars(&mut r, &lines[i]);
        proof {
            if i == from {
                assert(r@ =~= lines@[i as int]@);
            } else {
                assert(r@ =~= join_lines(before) + seq!['\n'] + lines@[i as int]@);
            }
        }
        i += 1;
    }
    r
}

/// Whether `s` starts with `p`.
pub open spec fn has_prefix(s: Seq<char>, p: Seq<char>) -> bool {
    s.len() >= p.len() && s.take(p.len() as int) == p
}

/// Whether the characters of `v` from `from` on start with `word`.
pub(crate) fn starts_with(v: &Vec<char>, from: usize, word: &str) -> (r: bool)
    requires
        from <= v.len(),
    ensures
        r == has_prefix(v@.skip(from as int), word@),
{
    let w = to_chars(word);
    if v.len() - from < w.len() {
        return false;
    }
    let ghost s = v@.skip(from as int);
    let mut i: usize = 0;
    while i < w.len()
        invariant
            i <= w.len(),
            from + w.len() <= v.len(),
            s == v@.skip(from as int),
            w@ == word@,
            forall|j: int| 0 <= j < i ==> s[j] == w@[j],
        decreases w.len() - i,
    {
        if v[from + i] != w[i] {
            proof {
                assert(s.take(w.len() as int)[i as int] == s[i as int]);
            }
            return false;
        }
        i += 1;
    }
    assert(s.take(w.len() as int) =~= w@);
    true
}

/// The number that a digit stands for.
pub open spec fn digit_value(c: char) -> int {
    c as int - '0' as int
}

/// The number that a run of digits stands for, read in base ten.
pub open spec fn digits_value(s: Seq<char>) -> nat
    decreases s.len(),
{
    if s.len() == 0 {
        0
    } else {
        (digits_value(s.drop_last()) * 10 + digit_value(s.last())) as nat
    }
}

/// The number written as digits alone, where it fits in `i64`.
pub open spec fn unsigned_of(s: Seq<char>) -> Option<int> {
    if s.len() > 0 && all_in(s, CharClass::Digit) && digits_value(s) <= i64::MAX {
        Some(digits_value(s) as int)
    } else {
        None
    }
}

/// The number written as digits after an optional `+` or `-`, where it
/// fits in `i64`.
pub open spec fn int_of(s: Seq<char>) -> Option<int> {
    if s.len() > 0 && s[0] == '-' {
        let d = s.drop_first();
        if d.len() > 0 && all_in(d, CharClass::Digit) && digits_value(d) <= -i64::MIN {
            Some(-digits_value(d))
        } else {
            None
        }
    } else if s.len() > 0 && s[0] == '+' {
        unsigned_of(s.drop_first())
    } else {
        unsigned_of(s)
    }
}

/// More digits never make a smaller number.
pub proof fn lemma_digits_value_grows(s: Seq<char>, n: int)
    requires
        0 <= n <= s.len(),
        all_in(s, CharClass::Digit),
    ensures
        digits_value(s.take(n)) <= digits_value(s),
    decreases s.len() - n,
{
    if n == s.len() {
        assert(s.take(n) =~= s);
    } else {
        let t = s.drop_last();
        assert(t.take(n) =~= s.take(n));
        assert(all_in(t, CharClass::Digit)) by {
            assert forall|i: int| 0 <= i < t.len() implies in_class(
                #[trigger] t[i],
                CharClass::Digit,
            ) by {
                assert(t[i] == s[i]);
            }
        }
        lemma_digits_value_grows(t, n);
        assert(in_class(s[s.len() - 1], CharClass::Digit));
    }
}

/// Reads the digits of `v` from `from` up to `to` as a number; `None`
/// where it is above `limit`.
pub(crate) fn read_digits(v: &Vec<char>, from: usize, to: usize, limit: u64) -> (r: Option<u64>)
    requires
        from <= to <= v.len(),
        all_in(v@.subrange(from as int, to as int), CharClass::Digit),
    ensures
        r is Some <==> digits_value(v@.subrange(from as int, to as int)) <= limit,
        r matches Some(n) ==> n == digits_value(v@.subrange(from as int, to as int)),
{
    let ghost s = v@.subrange(from as int, to as int);
    let mut acc: u64 = 0;
    let mut i: usize = from;
    assert(s.take(0) =~= Seq::<char>::empty());
    while i < to
        invariant
            from <= i <= to <= v.len(),
            s == v@.subrange(from as int, to as int),
            all_in(s, CharClass::Digit),
            acc == digits_value(s.take(i - from)),
            acc <= limit,
        decreases to - i,
    {
        let c: char = v[i];
        proof {
            assert(s[i - from] == c);
            assert(in_class(s[i - from], CharClass::Digit));
            assert(s.take(i - from + 1).drop_last() =~= s.take(i - from));
            assert(s.take(i - from + 1).last() == c);
            lemma_digits_value_grows(s, i - from + 1);
        }
        let d: u64 = (c as u32 - '0' as u32) as u64;
        if d > limit || acc > (limit - d) / 10 {
            return None;
        }
        acc = acc * 10 + d;
        i += 1;
    }
    proof {
        assert(s.take(to - from) =~= s);
    }
    Some(acc)
}

/// Reads `v` as a whole number with an optional sign, as `str::parse` does
/// for `i64`.
pub fn read_int(v: &Vec<char>) -> (r: Option<i64>)
    ensures
        match int_of(v@) {
            Some(n) => r == Some(n as i64) && i64::MIN <= n <= i64::MAX,
            None => r is None,
        },
{
    if v.len() == 0 {
        return None;
    }
    let signed: bool = v[0] == '-' || v[0] == '+';
    let from: usize = if signed {
        1
    } else {
        0
    };
    let end: usize = run_end(v, from, CharClass::Digit);
    let ghost d = v@.skip(from as int);
    proof {
        assert(v@.skip(0) =~= v@);
        assert(v@.skip(1) =~= v@.drop_first());
        if end < v.len() {
            assert(d[end - from] == v@[end as int]);
            assert(!all_in(d, CharClass::Digit));
        } else {
            assert forall|i: int| 0 <= i < d.len() implies in_class(
                #[trigger] d[i],
                CharClass::Digit,
            ) by {
                assert(d[i] == v@[from + i]);
            }
            assert(v@.subrange(from as int, end as int) =~= d);
        }
    }
    if end != v.len() || end == from {
        return None;
    }
    if v[0] == '-' {
        match read_digits(v, from, end, 0x8000_0000_0000_0000) {
            Some(n) => {
                if n == 0x8000_0000_0000_0000 {
                    Some(i64::MIN)
                } else {
                    Some(-(n as i64))
                }
            },
            None => None,
        }
    } else {
        match read_digits(v, from, end, 0x7FFF_FFFF_FFFF_FFFF) {
            Some(n) => Some(n as i64),
            None => None,
        }
    }
}

/// `s` with every match of `pattern` replaced by `with`. The matches are
/// found from left to right and do not overlap. An empty pattern matches
/// nowhere.
pub open spec fn replaced(s: Seq<char>, pattern: Seq<char>, with: Seq<char>) -> Seq<char>
    decreases s.len(),
{
    if pattern.len() == 0 || s.len() < pattern.len() {
        s
    } else if has_prefix(s, pattern) {
        with + replaced(s.skip(pattern.len() as int), pattern, with)
    } else {
        seq![s[0]] + replaced(s.drop_first(), pattern, with)
    }
}

/// `v` with every match of `pattern` replaced by `with`, as `str::replace`
/// gives it for a pattern that is not empty.
pub fn replace_all(v: &Vec<char>, pattern: &str, with: &str) -> (r: Vec<char>)
    ensures
        r@ == replaced(v@, pattern@, with@),
{
    let p = to_chars(pattern);
    let w = to_chars(with);
    let mut r: Vec<char> = Vec::new();
    let mut i: usize = 0;
    assert(v@.skip(0) =~= v@);
    if p.len() == 0 {
        append_chars(&mut r, v);
        return r;
    }
    while v.len() - i >= p.len()
        invariant
            i <= v.len(),
            p@ == pattern@,
            w@ == with@,
            p.len() > 0,
            replaced(v@, pattern@, with@) == r@ + replaced(v@.skip(i as int), pattern@, with@),
        decreases v.len() - i,
    {
        let ghost s = v@.skip(i as int);
        let ghost before = r@;
        if starts_with(v, i, pattern) {
            append_chars(&mut r, &w);
            proof {
                assert(s.skip(p.len() as int) =~= v@.skip(i + p.len()));
                assert(before + (w@ + replaced(v@.skip(i + p.len()), pattern@, with@)) =~= r@
                    + replaced(v@.skip(i + p.len()), pattern@, with@));
            }
            i += p.len();
        } else {
            r.push(v[i]);
            proof {
                assert(s[0] == v@[i as int]);
                assert(s.drop_first() =~= v@.skip(i + 1));
                assert(before + (seq![s[0]] + replaced(v@.skip(i + 1), pattern@, with@)) =~= r@
                    + replaced(v@.skip(i + 1), pattern@, with@));
            }
            i += 1;
        }
    }
    let ghost before = r@;
    let rest = sub_chars(v, i, v.len());
    append_chars(&mut r, &rest);
    proof {
        assert(rest@ =~= v@.skip(i as int));
    }
    r
}

/// The small letter for a capital letter from `A` to `Z`; any other
/// character as it is.
pub open spec fn lower(c: char) -> char {
    if 'A' <= c <= 'Z' {
        ((c as u8) + 32) as u8 as char
    } else {
        c
    }
}

/// The text with its capital letters from `A` to `Z` made small.
pub open spec fn lowered(s: Seq<char>) -> Seq<char> {
    Seq::new(s.len(), |i: int| lower(s[i]))
}

/// The small letter for a capital letter from `A` to `Z`; any other
/// character as it is.
pub fn to_lower(c: char) -> (r: char)
    ensures
        r == lower(c),
{
    if 'A' <= c && c <= 'Z' {
        ((c as u8) + 32) as char
    } else {
        c
    }
}

} // verus!
