//! How the rewritten document and the mapping table agree.
//!
//! The rewriter takes the key of a placeholder from the pattern of the
//! evidence, the mapping table takes its key from the literal of the
//! evidence. The two keys are the same for all evidence but a pattern
//! literal with flag letters behind it, where they can differ.

use crate::evidence::{
    flag_count, is_wrapped, key_literal, matching_pattern, normalize_for_matching,
    without_backslashes, without_first, without_last,
};
use crate::mapping::{
    lemma_mapping_keys, mapped_literal, mapping_key, mapping_of, stored_literal,
};
use crate::rewrite::{
    document_at, is_applied, lemma_placeholder_stands, lemma_spared, placeholder_for, rewritten,
    spares, FindingView,
};
use crate::slug::{
    lemma_slug_joined, slug_char, slug_chars, slug_of, slugify, transliterated,
};
use crate::text::{contains, is_one_line};
use vstd::prelude::*;

verus! {

/// Whether `text` holds no backslash, starts with neither a slash nor an
/// opening parenthesis and ends with neither a slash nor a closing
/// parenthesis: neither normal form takes anything from it.
pub open spec fn is_plain(text: Seq<char>) -> bool {
    &&& forall|i: int| 0 <= i < text.len() ==> text[i] != '\\'
    &&& text.len() > 0 ==> text[0] != '/' && text[0] != '('
    &&& text.len() > 0 ==> text.last() != '/' && text.last() != ')'
}

/// Whether the rewriter and the mapping table give `evidence` the same
/// key.
pub open spec fn keys_agree(evidence: Seq<char>) -> bool {
    slug_of(matching_pattern(evidence)) == mapping_key(evidence)
}

/// Whether the rewriter and the mapping table give `evidence` the same
/// key, so that a placeholder for it is found in the table.
pub fn same_key(evidence: &str) -> (same: bool)
    ensures
        same == keys_agree(evidence@),
{
    let in_document = slugify(normalize_for_matching(evidence).as_str());
    let in_table = slugify(stored_literal(evidence).as_str());
    in_document == in_table
}

/// A text without backslashes stays as it is when they are taken out.
pub proof fn lemma_without_backslashes(text: Seq<char>)
    requires
        forall|i: int| 0 <= i < text.len() ==> text[i] != '\\',
    ensures
        without_backslashes(text) == text,
    decreases text.len(),
{
    if text.len() > 0 {
        lemma_without_backslashes(text.drop_last());
    }
}

/// Plain evidence is its own pattern and its own literal, so both keys are
/// its slug.
pub proof fn lemma_keys_agree_on_plain(evidence: Seq<char>)
    requires
        is_plain(evidence),
    ensures
        matching_pattern(evidence) == evidence,
        mapped_literal(evidence) == evidence,
        keys_agree(evidence),
{
    lemma_without_backslashes(evidence);
}

/// A plain body between two slashes is the pattern and the literal of that
/// evidence, so both keys are the slug of the body.
pub proof fn lemma_keys_agree_on_wrapped(body: Seq<char>)
    requires
        is_plain(body),
        is_one_line(body),
    ensures
        matching_pattern(seq!['/'] + body + seq!['/']) == body,
        mapped_literal(seq!['/'] + body + seq!['/']) == body,
        keys_agree(seq!['/'] + body + seq!['/']),
{
    let evidence = seq!['/'] + body + seq!['/'];
    assert(evidence.drop_first().drop_last() == body);
    lemma_without_backslashes(body);
}

/// Whether `c` is a character of ASCII that no slug keeps.
pub open spec fn is_dropped(c: char) -> bool {
    c <= '\u{7f}' && slug_char(c) is None
}

/// A character that no slug keeps gives nothing to the slug of a text that
/// ends with it.
pub proof fn lemma_dropped_char(text: Seq<char>, c: char)
    requires
        is_dropped(c),
    ensures
        slug_chars(text.push(c)) == slug_chars(text),
{
    let plain = transliterated(text);
    assert(text.push(c).drop_last() == text);
    assert(plain.push(c).drop_last() == plain);
}

/// Taking a character that no slug keeps from the start of a text changes
/// nothing in the characters of its slug.
pub proof fn lemma_dropped_first(text: Seq<char>, c: char)
    requires
        is_dropped(c),
    ensures
        slug_chars(without_first(text, c)) == slug_chars(text),
{
    if text.len() > 0 && text[0] == c {
        assert(seq![c] + text.drop_first() == text);
        assert(Seq::<char>::empty().push(c) == seq![c]);
        lemma_dropped_char(Seq::empty(), c);
        lemma_slug_joined(seq![c], text.drop_first());
    }
}

/// Taking a character that no slug keeps from the end of a text changes
/// nothing in the characters of its slug.
pub proof fn lemma_dropped_last(text: Seq<char>, c: char)
    requires
        is_dropped(c),
    ensures
        slug_chars(without_last(text, c)) == slug_chars(text),
{
    if text.len() > 0 && text.last() == c {
        assert(text.drop_last().push(c) == text);
        lemma_dropped_char(text.drop_last(), c);
    }
}

/// Taking the backslashes out of a text changes nothing in the characters
/// of its slug.
pub proof fn lemma_dropped_backslashes(text: Seq<char>)
    ensures
        slug_chars(without_backslashes(text)) == slug_chars(text),
    decreases text.len(),
{
    if text.len() > 0 {
        let front = text.drop_last();
        let last = seq![text.last()];
        lemma_dropped_backslashes(front);
        if text.last() == '\\' {
            lemma_dropped_last(text, '\\');
        } else {
            assert(front + last == text);
            assert(without_backslashes(front) + last == without_backslashes(text));
            lemma_slug_joined(front, last);
            lemma_slug_joined(without_backslashes(front), last);
        }
    }
}

/// The literal that is stored for evidence gives the same characters to
/// its slug as the evidence itself: what is taken from the evidence is
/// slashes, backslashes and parentheses, and no slug keeps them.
pub proof fn lemma_literal_chars(evidence: Seq<char>)
    ensures
        slug_chars(mapped_literal(evidence)) == slug_chars(evidence),
        mapping_key(evidence) == slug_of(evidence),
{
    let open = without_first(evidence, '/');
    let bare = without_last(open, '/');
    let plain = without_backslashes(bare);
    lemma_dropped_first(evidence, '/');
    lemma_dropped_last(open, '/');
    lemma_dropped_backslashes(bare);
    lemma_dropped_first(plain, '(');
    lemma_dropped_last(without_first(plain, '('), ')');
    let literal = key_literal(evidence);
    lemma_dropped_first(literal, '(');
    lemma_dropped_last(without_first(literal, '('), ')');
}

/// Both keys are the same for all evidence but a pattern literal with flag
/// letters: for evidence that is no pattern literal, and for a body
/// between two slashes with nothing behind them.
pub proof fn lemma_keys_agree(evidence: Seq<char>)
    requires
        !is_wrapped(evidence) || flag_count(evidence) == 0,
    ensures
        keys_agree(evidence),
{
    lemma_literal_chars(evidence);
    if is_wrapped(evidence) {
        let open = without_first(evidence, '/');
        lemma_dropped_first(evidence, '/');
        lemma_dropped_last(open, '/');
        assert(without_last(open, '/') == matching_pattern(evidence));
    }
}

/// Round trip. Take a finding that was applied when its turn came, and
/// whose two keys agree. If every finding behind it spares the placeholder
/// with that key, the mapping table has the key and the rewritten document
/// holds the placeholder.
pub proof fn lemma_round_trip(document: Seq<char>, findings: Seq<FindingView>, i: int)
    requires
        0 <= i < findings.len(),
        is_applied(document_at(document, findings, i), findings[i]),
        keys_agree(findings[i].evidence),
        forall|j: int|
            i < j < findings.len() ==> spares(
                #[trigger] document_at(document, findings, j),
                findings[j],
                placeholder_for(mapping_key(findings[i].evidence)),
            ),
    ensures
        mapping_of(findings).contains_key(mapping_key(findings[i].evidence)),
        contains(
            rewritten(document, findings),
            placeholder_for(mapping_key(findings[i].evidence)),
        ),
{
    lemma_mapping_keys(findings, mapping_key(findings[i].evidence));
    lemma_placeholder_stands(document_at(document, findings, i), findings[i]);
    assert(findings.take(i + 1).drop_last() == findings.take(i));
    lemma_spared_behind(
        document,
        findings,
        placeholder_for(mapping_key(findings[i].evidence)),
        i + 1,
        findings.len() as int,
    );
    assert(findings.take(findings.len() as int) == findings);
}

/// Round trip for the last finding. If it was applied when its turn came
/// and its evidence is no pattern literal with flag letters, the mapping
/// table holds its literal under its key and the rewritten document holds
/// the placeholder with that key.
pub proof fn lemma_round_trip_of_last(document: Seq<char>, findings: Seq<FindingView>)
    requires
        findings.len() > 0,
        is_applied(document_at(document, findings, findings.len() - 1), findings.last()),
        !is_wrapped(findings.last().evidence) || flag_count(findings.last().evidence) == 0,
    ensures
        mapping_of(findings).contains_key(mapping_key(findings.last().evidence)),
        mapping_of(findings)[mapping_key(findings.last().evidence)] == mapped_literal(
            findings.last().evidence,
        ),
        contains(
            rewritten(document, findings),
            placeholder_for(mapping_key(findings.last().evidence)),
        ),
{
    lemma_keys_agree(findings.last().evidence);
    lemma_round_trip(document, findings, findings.len() - 1);
}

/// Where `part` stands in the document as the finding with index `from`
/// meets it, and the findings from there up to `to` spare it, it stands in
/// the document as the finding with index `to` meets it.
proof fn lemma_spared_behind(
    document: Seq<char>,
    findings: Seq<FindingView>,
    part: Seq<char>,
    from: int,
    to: int,
)
    requires
        0 <= from <= to <= findings.len(),
        contains(document_at(document, findings, from), part),
        forall|j: int|
            from <= j < to ==> spares(
                #[trigger] document_at(document, findings, j),
                findings[j],
                part,
            ),
    ensures
        contains(document_at(document, findings, to), part),
    decreases to - from,
{
    if from < to {
        lemma_spared_behind(document, findings, part, from, to - 1);
        assert(findings.take(to).drop_last() == findings.take(to - 1));
        lemma_spared(document_at(document, findings, to - 1), findings[to - 1], part);
    }
}

} // verus!
