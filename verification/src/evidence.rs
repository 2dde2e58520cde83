//! Evidence: the raw text of a finding. One normal form of it is the
//! pattern that locates the literal on its line, another the literal as it
//! is stored.

use crate::text::{chars_of, string_of};
use vstd::prelude::*;

verus! {

/// The number of flag letters `m` at the end of `evidence`.
pub open spec fn flag_count(evidence: Seq<char>) -> nat
    decreases evidence.len(),
{
    if evidence.len() > 0 && evidence.last() == 'm' {
        1 + flag_count(evidence.drop_last())
    } else {
        0
    }
}

/// Where the slash stands that closes the pattern literal, if `evidence` is
/// one: before the flag letters.
pub open spec fn closing_slash(evidence: Seq<char>) -> int {
    evidence.len() - flag_count(evidence) - 1
}

/// Whether `evidence` has the shape of a pattern literal.
pub open spec fn is_wrapped(evidence: Seq<char>) -> bool {
    let close = closing_slash(evidence);
    &&& 1 <= close
    &&& evidence[0] == '/'
    &&& evidence[close] == '/'
    &&& forall|i: int| 1 <= i < close ==> evidence[i] != '\n'
}

/// The pattern that locates the evidence on its line: the body of a
/// pattern literal, and any other evidence as it is.
pub open spec fn matching_pattern(evidence: Seq<char>) -> Seq<char> {
    if is_wrapped(evidence) {
        evidence.subrange(1, closing_slash(evidence))
    } else {
        evidence
    }
}

/// Whether `evidence` is `body` written as a pattern literal: between two
/// slashes, followed by `flags`. The flags are letters `m`, and the body
/// holds no line feed.
pub open spec fn wraps(evidence: Seq<char>, body: Seq<char>, flags: Seq<char>) -> bool {
    &&& evidence == seq!['/'] + body + seq!['/'] + flags
    &&& forall|i: int| 0 <= i < flags.len() ==> flags[i] == 'm'
    &&& forall|i: int| 0 <= i < body.len() ==> body[i] != '\n'
}

/// `text` without `c` at its start, if it starts with `c`.
pub open spec fn without_first(text: Seq<char>, c: char) -> Seq<char> {
    if text.len() > 0 && text[0] == c {
        text.drop_first()
    } else {
        text
    }
}

/// `text` without `c` at its end, if it ends with `c`.
pub open spec fn without_last(text: Seq<char>, c: char) -> Seq<char> {
    if text.len() > 0 && text.last() == c {
        text.drop_last()
    } else {
        text
    }
}

/// `text` without any backslash.
pub open spec fn without_backslashes(text: Seq<char>) -> Seq<char>
    decreases text.len(),
{
    if text.len() == 0 {
        text
    } else if text.last() == '\\' {
        without_backslashes(text.drop_last())
    } else {
        without_backslashes(text.drop_last()).push(text.last())
    }
}

/// `text` without one opening parenthesis at its start and one closing
/// parenthesis at its end, as far as they are there.
pub open spec fn without_parentheses(text: Seq<char>) -> Seq<char> {
    without_last(without_first(text, '('), ')')
}

/// The literal that the evidence stands for: the evidence without one
/// slash at its start and one at its end, then without its backslashes,
/// then without one pair of parentheses around it.
pub open spec fn key_literal(evidence: Seq<char>) -> Seq<char> {
    without_parentheses(without_backslashes(without_last(without_first(evidence, '/'), '/')))
}

/// The pattern that locates the evidence on its line.
///
/// Evidence of the shape `/body/`, with any number of flag letters `m`
/// behind the second slash and no line feed in the body, gives `body`
/// unchanged. Any other evidence is returned as it is. Nothing in the
/// result is escaped.
pub fn normalize_for_matching(evidence: &str) -> (pattern: String)
    ensures
        pattern@ == matching_pattern(evidence@),
{
    let chars = chars_of(evidence);
    let mut close: usize = chars.len();
    while close > 0 && chars[close - 1] == 'm'
        invariant
            close <= chars.len(),
            forall|i: int| close <= i < chars.len() ==> chars@[i] == 'm',
        decreases close,
    {
        close -= 1;
    }
    proof {
        lemma_flag_count_is(chars@, (chars.len() - close) as nat);
    }
    if close >= 2 && chars[0] == '/' && chars[close - 1] == '/' {
        let mut i: usize = 1;
        while i < close - 1
            invariant
                1 <= i <= close - 1,
                close <= chars.len(),
                chars@ == evidence@,
                closing_slash(chars@) == close - 1,
                forall|j: int| 1 <= j < i ==> chars@[j] != '\n',
            decreases close - i,
        {
            if chars[i] == '\n' {
                return string_of(&chars, 0, chars.len());
            }
            i += 1;
        }
        return string_of(&chars, 1, close - 1);
    }
    string_of(&chars, 0, chars.len())
}

/// The literal that the evidence stands for, as it is stored: the evidence
/// without one slash at its start and one at its end (whatever stands
/// between them), then without its backslashes, then without one opening
/// parenthesis at its start and one closing parenthesis at its end.
pub fn normalize_for_key(evidence: &str) -> (literal: String)
    ensures
        literal@ == key_literal(evidence@),
{
    let chars = chars_of(evidence);
    let (from, to) = trim_once(&chars, '/', '/');
    let mut plain: Vec<char> = Vec::new();
    let mut i: usize = from;
    while i < to
        invariant
            from <= i <= to <= chars.len(),
            plain@ == without_backslashes(chars@.subrange(from as int, i as int)),
        decreases to - i,
    {
        assert(chars@.subrange(from as int, i + 1).drop_last() == chars@.subrange(
            from as int,
            i as int,
        ));
        if chars[i] != '\\' {
            plain.push(chars[i]);
        }
        i += 1;
    }
    let (first, last) = trim_once(&plain, '(', ')');
    string_of(&plain, first, last)
}

/// The literal without one more pair of parentheses around it.
pub fn strip_parentheses(literal: &str) -> (inner: String)
    ensures
        inner@ == without_parentheses(literal@),
{
    let chars = chars_of(literal);
    let (first, last) = trim_once(&chars, '(', ')');
    string_of(&chars, first, last)
}

/// A pattern literal gives its body: `/body/` and `/body/m` give `body`.
pub proof fn lemma_pattern_of_wrapped(evidence: Seq<char>, body: Seq<char>, flags: Seq<char>)
    requires
        wraps(evidence, body, flags),
    ensures
        is_wrapped(evidence),
        matching_pattern(evidence) == body,
{
    lemma_flag_count_is(evidence, flags.len());
}

/// Evidence that is no pattern literal is its own pattern, and evidence
/// that is one has the shape `/body/flags`.
pub proof fn lemma_pattern_shape(evidence: Seq<char>)
    ensures
        !is_wrapped(evidence) ==> matching_pattern(evidence) == evidence,
        is_wrapped(evidence) ==> wraps(
            evidence,
            matching_pattern(evidence),
            evidence.skip(closing_slash(evidence) + 1),
        ),
{
    lemma_flag_count(evidence);
    if is_wrapped(evidence) {
        let close = closing_slash(evidence);
        assert(evidence == seq!['/'] + evidence.subrange(1, close) + seq!['/'] + evidence.skip(
            close + 1,
        ));
    }
}

/// The flag letters are the last `flag_count` characters, and the
/// character before them is no flag letter.
pub proof fn lemma_flag_count(evidence: Seq<char>)
    ensures
        flag_count(evidence) <= evidence.len(),
        forall|i: int|
            evidence.len() - flag_count(evidence) <= i < evidence.len() ==> evidence[i] == 'm',
        flag_count(evidence) < evidence.len() ==> evidence[closing_slash(evidence)] != 'm',
    decreases evidence.len(),
{
    if evidence.len() > 0 && evidence.last() == 'm' {
        let front = evidence.drop_last();
        lemma_flag_count(front);
        assert forall|i: int|
            evidence.len() - flag_count(evidence) <= i < evidence.len() implies evidence[i]
            == 'm' by {
            if i < front.len() {
                assert(evidence[i] == front[i]);
            }
        }
    }
}

/// Where the last `n` characters are flag letters and the one before them
/// is none, `flag_count` is `n`.
pub proof fn lemma_flag_count_is(evidence: Seq<char>, n: nat)
    requires
        n <= evidence.len(),
        forall|i: int| evidence.len() - n <= i < evidence.len() ==> evidence[i] == 'm',
        n < evidence.len() ==> evidence[evidence.len() - n - 1] != 'm',
    ensures
        flag_count(evidence) == n,
{
    lemma_flag_count(evidence);
}

/// The part of `chars` that is left without `open` at its start and
/// `close` at its end: its first position and the position behind its last
/// character.
fn trim_once(chars: &Vec<char>, open: char, close: char) -> (part: (usize, usize))
    ensures
        part.0 <= part.1 <= chars.len(),
        chars@.subrange(part.0 as int, part.1 as int) == without_last(
            without_first(chars@, open),
            close,
        ),
{
    let mut first: usize = 0;
    if first < chars.len() && chars[first] == open {
        first += 1;
    }
    let mut last: usize = chars.len();
    if first < last && chars[last - 1] == close {
        last -= 1;
    }
    (first, last)
}

} // verus!
