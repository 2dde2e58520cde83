//! Texts as sequences of characters: conversion between strings and
//! character vectors, line lookup and substring replacement.

use vstd::prelude::*;

verus! {

/// Whether `part` stands in `text` at position `at`.
pub open spec fn occurs_at(text: Seq<char>, part: Seq<char>, at: int) -> bool {
    &&& 0 <= at
    &&& at + part.len() <= text.len()
    &&& text.subrange(at, at + part.len()) == part
}

/// Whether `part` stands somewhere in `text`.
pub open spec fn contains(text: Seq<char>, part: Seq<char>) -> bool {
    exists|at: int| occurs_at(text, part, at)
}

/// `text` with every occurrence of `from` replaced by `to`.
///
/// Occurrences are found from left to right and do not overlap: after one
/// has been replaced the search goes on behind it. An empty `from` occurs
/// before every character and at the end of the text.
pub open spec fn replaced(text: Seq<char>, from: Seq<char>, to: Seq<char>) -> Seq<char>
    decreases text.len(),
{
    if text.len() == 0 {
        if from.len() == 0 {
            to
        } else {
            text
        }
    } else if from.len() == 0 {
        to.push(text[0]) + replaced(text.skip(1), from, to)
    } else if occurs_at(text, from, 0) {
        to + replaced(text.skip(from.len() as int), from, to)
    } else {
        seq![text[0]] + replaced(text.skip(1), from, to)
    }
}

/// The number of characters of `text` that stand before its first line
/// feed; the length of `text` where it holds none.
pub open spec fn line_len(text: Seq<char>) -> int
    decreases text.len(),
{
    if text.len() == 0 || text[0] == '\n' {
        0
    } else {
        1 + line_len(text.skip(1))
    }
}

/// `line` without one carriage return at its end.
pub open spec fn without_cr(line: Seq<char>) -> Seq<char> {
    if line.len() > 0 && line.last() == '\r' {
        line.drop_last()
    } else {
        line
    }
}

/// The first line of a text that is not empty.
///
/// A line ends with a line feed, or with a carriage return followed by a
/// line feed; neither belongs to the line. The last line needs no line
/// ending, and a carriage return at its end then stays.
pub open spec fn first_line(text: Seq<char>) -> Seq<char> {
    let n = line_len(text);
    if 0 <= n < text.len() {
        without_cr(text.take(n))
    } else {
        text
    }
}

/// What follows the first line and its line ending.
pub open spec fn after_first_line(text: Seq<char>) -> Seq<char> {
    let n = line_len(text);
    if 0 <= n < text.len() {
        text.skip(n + 1)
    } else {
        Seq::empty()
    }
}

/// The lines of `text`. A line ending at the very end of the text opens no
/// further line, and the empty text has no line.
pub open spec fn lines_of(text: Seq<char>) -> Seq<Seq<char>>
    decreases text.len(),
{
    if text.len() == 0 {
        Seq::empty()
    } else {
        seq![first_line(text)] + lines_of(after_first_line(text))
    }
}

/// The line of `text` with index `n`, counted from zero.
pub open spec fn line_at(text: Seq<char>, n: nat) -> Option<Seq<char>> {
    if n < lines_of(text).len() {
        Some(lines_of(text)[n as int])
    } else {
        None
    }
}

/// Whether `part` stands in `text` at position `at` and no occurrence of
/// `other` in `text` reaches into it.
pub open spec fn stands_clear(text: Seq<char>, part: Seq<char>, at: int, other: Seq<char>) -> bool {
    &&& occurs_at(text, part, at)
    &&& forall|k: int|
        occurs_at(text, other, k) ==> k + other.len() <= at || at + part.len() <= k
}

/// Whether `text` is empty or ends with a line feed, so that what follows
/// it starts a line.
pub open spec fn ends_a_line(text: Seq<char>) -> bool {
    text.len() == 0 || text.last() == '\n'
}

/// Whether `text` holds no line feed.
pub open spec fn is_one_line(text: Seq<char>) -> bool {
    forall|i: int| 0 <= i < text.len() ==> text[i] != '\n'
}

/// The line of `text` with index `n`, counted from zero; `None` where
/// `text` has no such line.
pub fn nth_line(text: &str, n: usize) -> (line: Option<String>)
    ensures
        match line {
            Some(found) => line_at(text@, n as nat) == Some(found@),
            None => line_at(text@, n as nat) is None,
        },
{
    let chars = chars_of(text);
    match find_line(&chars, n) {
        Some((from, to)) => Some(string_of(&chars, from, to)),
        None => None,
    }
}

/// `text` with every occurrence of `from` replaced by `to`.
///
/// Occurrences are found from left to right and do not overlap. An empty
/// `from` occurs before every character and at the end of the text.
pub fn replace_all(text: &str, from: &str, to: &str) -> (out: String)
    ensures
        out@ == replaced(text@, from@, to@),
{
    let out = replace_chars(&chars_of(text), &chars_of(from), &chars_of(to));
    string_of(&out, 0, out.len())
}

/// Replacing goes through a text piece by piece: where `from` stands
/// behind `head`, and no occurrence of `from` that starts in `head` runs
/// over its end, the occurrences in `head`, the one behind it and those in
/// `tail` are each replaced.
pub proof fn lemma_replaced_behind(
    head: Seq<char>,
    from: Seq<char>,
    tail: Seq<char>,
    to: Seq<char>,
)
    requires
        from.len() > 0,
        forall|at: int|
            0 <= at < head.len() && at + from.len() > head.len() ==> !occurs_at(
                head + from + tail,
                from,
                at,
            ),
    ensures
        replaced(head + from + tail, from, to) == replaced(head, from, to) + to + replaced(
            tail,
            from,
            to,
        ),
    decreases head.len(),
{
    let text = head + from + tail;
    let n = from.len() as int;
    if head.len() == 0 {
        assert(text.subrange(0, n) == from);
        assert(text.skip(n) == tail);
    } else {
        if n <= head.len() {
            assert(head.subrange(0, n) == text.subrange(0, n));
        }
        let shift = if occurs_at(text, from, 0) {
            n
        } else {
            1
        };
        let rest = head.skip(shift);
        assert(text.skip(shift) == rest + from + tail);
        lemma_occurs_behind(text, from, shift);
        lemma_replaced_behind(rest, from, tail, to);
    }
}

/// A text in which `from` stands nowhere stays as it is.
pub proof fn lemma_replaced_without(text: Seq<char>, from: Seq<char>, to: Seq<char>)
    requires
        !contains(text, from),
    ensures
        replaced(text, from, to) == text,
    decreases text.len(),
{
    if from.len() == 0 {
        assert(text.subrange(0, 0) == from);
        assert(occurs_at(text, from, 0));
    } else if text.len() > 0 {
        lemma_occurs_behind(text, from, 1);
        lemma_replaced_without(text.skip(1), from, to);
    }
}

/// Where the text of a line stands at the start of one line and nowhere
/// else, replacing it changes that line and nothing else.
pub proof fn lemma_replaced_on_one_line(
    first: Seq<char>,
    line: Seq<char>,
    last: Seq<char>,
    to: Seq<char>,
)
    requires
        line.len() > 0,
        is_one_line(line),
        ends_a_line(first),
        !contains(first, line),
        !contains(last, line),
    ensures
        replaced(first + line + last, line, to) == first + to + last,
{
    let text = first + line + last;
    let n = line.len() as int;
    assert forall|at: int| 0 <= at < first.len() && at + n > first.len() implies !occurs_at(
        text,
        line,
        at,
    ) by {
        if occurs_at(text, line, at) {
            assert(text.subrange(at, at + n)[first.len() - 1 - at] == '\n');
        }
    }
    lemma_replaced_behind(first, line, last, to);
    lemma_replaced_without(first, line, to);
    lemma_replaced_without(last, line, to);
}

/// Replacing the text of a line reaches every place where that text starts
/// a line: where it stands twice in the document, both are replaced by the
/// same new text, and so is every occurrence between and around them.
pub proof fn lemma_replaced_on_both_lines(
    first: Seq<char>,
    line: Seq<char>,
    between: Seq<char>,
    last: Seq<char>,
    to: Seq<char>,
)
    requires
        line.len() > 0,
        is_one_line(line),
        ends_a_line(first),
        between.len() > 0,
        ends_a_line(between),
    ensures
        replaced(first + line + between + line + last, line, to) == replaced(first, line, to) + to
            + replaced(between, line, to) + to + replaced(last, line, to),
{
    let n = line.len() as int;
    let tail = between + line + last;
    assert forall|at: int| 0 <= at < between.len() && at + n > between.len() implies !occurs_at(
        tail,
        line,
        at,
    ) by {
        if occurs_at(tail, line, at) {
            assert(tail.subrange(at, at + n)[between.len() - 1 - at] == '\n');
        }
    }
    lemma_replaced_behind(between, line, last, to);
    let text = first + line + tail;
    assert forall|at: int| 0 <= at < first.len() && at + n > first.len() implies !occurs_at(
        text,
        line,
        at,
    ) by {
        if occurs_at(text, line, at) {
            assert(text.subrange(at, at + n)[first.len() - 1 - at] == '\n');
        }
    }
    lemma_replaced_behind(first, line, tail, to);
    assert(text == first + line + between + line + last);
}

/// Where `from` stands in a text, the text holds `to` after replacing.
pub proof fn lemma_replaced_contains(text: Seq<char>, from: Seq<char>, to: Seq<char>)
    requires
        contains(text, from),
    ensures
        contains(replaced(text, from, to), to),
    decreases text.len(),
{
    let at = choose|at: int| occurs_at(text, from, at);
    if text.len() == 0 || from.len() == 0 || occurs_at(text, from, 0) {
        assert(replaced(text, from, to).subrange(0, to.len() as int) == to);
        assert(occurs_at(replaced(text, from, to), to, 0));
    } else {
        let rest = text.skip(1);
        lemma_occurs_behind(text, from, 1);
        assert(occurs_at(rest, from, at - 1));
        lemma_replaced_contains(rest, from, to);
        lemma_contains_behind(seq![text[0]], replaced(rest, from, to), to);
    }
}

/// What stands in a text stands in it behind any other text.
pub proof fn lemma_contains_behind(head: Seq<char>, text: Seq<char>, part: Seq<char>)
    requires
        contains(text, part),
    ensures
        contains(head + text, part),
{
    let at = choose|at: int| occurs_at(text, part, at);
    assert((head + text).subrange(head.len() + at, head.len() + at + part.len())
        == text.subrange(at, at + part.len()));
    assert(occurs_at(head + text, part, head.len() + at));
}

/// Replacing leaves a part of the text standing that no occurrence of
/// `from` reaches into.
pub proof fn lemma_replaced_keeps(
    text: Seq<char>,
    part: Seq<char>,
    at: int,
    from: Seq<char>,
    to: Seq<char>,
)
    requires
        from.len() > 0,
        stands_clear(text, part, at, from),
    ensures
        contains(replaced(text, from, to), part),
    decreases text.len(),
{
    let n = from.len() as int;
    if at == 0 {
        lemma_replaced_starts(text, part, from, to);
    } else {
        let shift = if occurs_at(text, from, 0) {
            n
        } else {
            1
        };
        let lead = if occurs_at(text, from, 0) {
            to
        } else {
            seq![text[0]]
        };
        let rest = text.skip(shift);
        lemma_occurs_behind(text, from, shift);
        lemma_occurs_behind(text, part, shift);
        lemma_replaced_keeps(rest, part, at - shift, from, to);
        lemma_contains_behind(lead, replaced(rest, from, to), part);
    }
}

/// Replacing leaves the start of the text as it is, where no occurrence of
/// `from` reaches into it.
proof fn lemma_replaced_starts(text: Seq<char>, start: Seq<char>, from: Seq<char>, to: Seq<char>)
    requires
        from.len() > 0,
        stands_clear(text, start, 0, from),
    ensures
        occurs_at(replaced(text, from, to), start, 0),
    decreases start.len(),
{
    let out = replaced(text, from, to);
    if start.len() == 0 {
        assert(out.subrange(0, 0) == start);
    } else {
        let rest = text.skip(1);
        let tail = start.skip(1);
        assert(rest.subrange(0, tail.len() as int) == tail);
        lemma_occurs_behind(text, from, 1);
        lemma_replaced_starts(rest, tail, from, to);
        let inner = replaced(rest, from, to);
        assert(out.subrange(0, start.len() as int) == start) by {
            assert forall|i: int| 0 <= i < start.len() implies out.subrange(
                0,
                start.len() as int,
            )[i] == start[i] by {
                if i > 0 {
                    assert(inner.subrange(0, tail.len() as int)[i - 1] == tail[i - 1]);
                }
            }
        }
    }
}

/// What stands in a text behind its first `shift` characters stands in
/// the text `shift` places further on, and the other way round.
pub proof fn lemma_occurs_behind(text: Seq<char>, part: Seq<char>, shift: int)
    requires
        0 <= shift <= text.len(),
    ensures
        forall|at: int| #[trigger]
            occurs_at(text.skip(shift), part, at) <==> 0 <= at && occurs_at(
                text,
                part,
                at + shift,
            ),
{
    assert forall|at: int| #[trigger]
        occurs_at(text.skip(shift), part, at) <==> 0 <= at && occurs_at(
            text,
            part,
            at + shift,
        ) by {
        if 0 <= at && at + shift + part.len() <= text.len() {
            assert(text.skip(shift).subrange(at, at + part.len()) == text.subrange(
                at + shift,
                at + shift + part.len(),
            ));
        }
    }
}

/// A text that holds `part` holds what `part` holds.
pub proof fn lemma_contains_inner(text: Seq<char>, part: Seq<char>, inner: Seq<char>)
    requires
        contains(text, part),
        contains(part, inner),
    ensures
        contains(text, inner),
{
    let at = choose|at: int| occurs_at(text, part, at);
    let within = choose|within: int| occurs_at(part, inner, within);
    assert(text.subrange(at + within, at + within + inner.len()) == part.subrange(
        within,
        within + inner.len(),
    ));
    assert(occurs_at(text, inner, at + within));
}

/// `line_len` stops at the first line feed, or at the end of a text that
/// holds none.
pub proof fn lemma_line_len(text: Seq<char>)
    ensures
        0 <= line_len(text) <= text.len(),
        forall|i: int| 0 <= i < line_len(text) ==> text[i] != '\n',
        line_len(text) < text.len() ==> text[line_len(text)] == '\n',
    decreases text.len(),
{
    if text.len() > 0 && text[0] != '\n' {
        let tail = text.skip(1);
        lemma_line_len(tail);
        assert forall|i: int| 0 <= i < line_len(text) implies text[i] != '\n' by {
            if i > 0 {
                assert(text[i] == tail[i - 1]);
            }
        }
    }
}

/// Where the first line feed of `text` stands at `n`, or `text` has `n`
/// characters and no line feed, `line_len` is `n`.
pub proof fn lemma_line_len_is(text: Seq<char>, n: int)
    requires
        0 <= n <= text.len(),
        forall|i: int| 0 <= i < n ==> text[i] != '\n',
        n < text.len() ==> text[n] == '\n',
    ensures
        line_len(text) == n,
{
    lemma_line_len(text);
}

/// The line with index `n` is the first line, or the line with index
/// `n - 1` of what follows the first line.
pub proof fn lemma_line_at_step(text: Seq<char>, n: nat)
    requires
        text.len() > 0,
    ensures
        line_at(text, n) == if n == 0 {
            Some(first_line(text))
        } else {
            line_at(after_first_line(text), (n - 1) as nat)
        },
{
}

/// A line of a text holds no line feed and stands in the text.
pub proof fn lemma_line_stands(text: Seq<char>, n: nat)
    requires
        line_at(text, n) is Some,
    ensures
        is_one_line(line_at(text, n)->0),
        contains(text, line_at(text, n)->0),
    decreases text.len(),
{
    lemma_line_len(text);
    let end = line_len(text);
    let line = line_at(text, n)->0;
    if n == 0 {
        if end < text.len() {
            assert(text.subrange(0, line.len() as int) == line);
        } else {
            assert(text.subrange(0, text.len() as int) == text);
        }
        assert(occurs_at(text, line, 0));
    } else {
        let rest = after_first_line(text);
        lemma_line_stands(rest, (n - 1) as nat);
        let at = choose|at: int| occurs_at(rest, line, at);
        assert(text.subrange(end + 1 + at, end + 1 + at + line.len()) == rest.subrange(
            at,
            at + line.len(),
        ));
        assert(occurs_at(text, line, end + 1 + at));
    }
}

/// `String::push` appends one character to the end of the string.
pub assume_specification[ String::push ](s: &mut String, ch: char)
    ensures
        final(s)@ == old(s)@.push(ch),
;

/// The characters of `s`, in order.
pub(crate) fn chars_of(s: &str) -> (out: Vec<char>)
    ensures
        out@ == s@,
{
    let mut out: Vec<char> = Vec::new();
    for c in it: s.chars()
        invariant
            it.seq() == s@,
            out@ == s@.take(it.index()),
    {
        out.push(c);
    }
    out
}

/// The string made of the characters `chars[from..to]`.
pub(crate) fn string_of(chars: &Vec<char>, from: usize, to: usize) -> (out: String)
    requires
        from <= to <= chars.len(),
    ensures
        out@ == chars@.subrange(from as int, to as int),
{
    let mut out = String::new();
    let mut i: usize = from;
    while i < to
        invariant
            from <= i <= to <= chars.len(),
            out@ == chars@.subrange(from as int, i as int),
        decreases to - i,
    {
        out.push(chars[i]);
        i += 1;
    }
    out
}

/// Appends the characters of `more` to `out`.
pub(crate) fn append_chars(out: &mut Vec<char>, more: &Vec<char>)
    ensures
        final(out)@ == old(out)@ + more@,
{
    let mut i: usize = 0;
    while i < more.len()
        invariant
            i <= more.len(),
            out@ == old(out)@ + more@.take(i as int),
        decreases more.len() - i,
    {
        out.push(more[i]);
        i += 1;
    }
}

/// Whether `part` stands in `text` at position `at`.
pub(crate) fn matches_at(text: &Vec<char>, part: &Vec<char>, at: usize) -> (found: bool)
    ensures
        found == occurs_at(text@, part@, at as int),
{
    if at > text.len() || part.len() > text.len() - at {
        return false;
    }
    let mut i: usize = 0;
    while i < part.len()
        invariant
            i <= part.len(),
            at + part.len() <= text.len(),
            text@.subrange(at as int, at + i) == part@.take(i as int),
        decreases part.len() - i,
    {
        if text[at + i] != part[i] {
            return false;
        }
        i += 1;
    }
    assert(part@.take(part@.len() as int) == part@);
    true
}

/// `text` with every occurrence of `from` replaced by `to`.
pub(crate) fn replace_chars(text: &Vec<char>, from: &Vec<char>, to: &Vec<char>) -> (out: Vec<char>)
    ensures
        out@ == replaced(text@, from@, to@),
{
    let mut out: Vec<char> = Vec::new();
    let mut i: usize = 0;
    assert(text@.skip(0) == text@);
    while i < text.len()
        invariant
            i <= text.len(),
            out@ + replaced(text@.skip(i as int), from@, to@) == replaced(text@, from@, to@),
        decreases text.len() - i,
    {
        let ghost rest = text@.skip(i as int);
        if from.len() == 0 {
            append_chars(&mut out, to);
            out.push(text[i]);
            assert(rest.skip(1) == text@.skip(i + 1));
            i += 1;
        } else if matches_at(text, from, i) {
            assert(rest.subrange(0, from@.len() as int) == text@.subrange(
                i as int,
                i + from@.len(),
            ));
            append_chars(&mut out, to);
            assert(rest.skip(from@.len() as int) == text@.skip(i + from@.len()));
            i += from.len();
        } else {
            assert(i + from@.len() <= text@.len() ==> rest.subrange(0, from@.len() as int)
                == text@.subrange(i as int, i + from@.len()));
            out.push(text[i]);
            assert(rest.skip(1) == text@.skip(i + 1));
            i += 1;
        }
    }
    if from.len() == 0 {
        append_chars(&mut out, to);
    }
    out
}

/// Where the line of `text` with index `n` stands: its first position and
/// the position behind its last character. `None` where `text` has no such
/// line.
pub(crate) fn find_line(text: &Vec<char>, n: usize) -> (found: Option<(usize, usize)>)
    ensures
        match found {
            Some((from, to)) => from <= to <= text.len() && line_at(text@, n as nat) == Some(
                text@.subrange(from as int, to as int),
            ),
            None => line_at(text@, n as nat) is None,
        },
{
    let mut start: usize = 0;
    let mut ahead: usize = n;
    assert(text@.skip(0) == text@);
    while start < text.len()
        invariant
            start <= text.len(),
            line_at(text@, n as nat) == line_at(text@.skip(start as int), ahead as nat),
        decreases text.len() - start,
    {
        let ghost rest = text@.skip(start as int);
        let mut end: usize = start;
        while end < text.len() && text[end] != '\n'
            invariant
                start <= end <= text.len(),
                forall|i: int| start <= i < end ==> text@[i] != '\n',
            decreases text.len() - end,
        {
            end += 1;
        }
        proof {
            lemma_line_len_is(rest, end - start);
            lemma_line_at_step(rest, ahead as nat);
        }
        if ahead == 0 {
            if end < text.len() && end > start && text[end - 1] == '\r' {
                return Some((start, end - 1));
            }
            return Some((start, end));
        }
        if end >= text.len() {
            return None;
        }
        assert(rest.skip(end - start + 1) == text@.skip(end + 1));
        start = end + 1;
        ahead -= 1;
    }
    None
}

} // verus!
