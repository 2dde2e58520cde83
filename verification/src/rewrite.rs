//! The line rewriter: it puts a placeholder where a finding's evidence
//! stands on its line.

use crate::evidence::{matching_pattern, normalize_for_matching};
use crate::slug::{slug_of, slugify};
use crate::text::{
    contains, ends_a_line, lemma_contains_inner, lemma_line_stands, lemma_replaced_contains,
    lemma_replaced_keeps, lemma_replaced_on_both_lines, lemma_replaced_on_one_line, line_at,
    lines_of, nth_line, occurs_at, replace_all, replaced, stands_clear,
};
use vstd::prelude::*;

verus! {

/// A hard-coded string that was found in a document.
#[derive(Clone, Debug)]
pub struct Finding {
    /// The line on which it stands, counted from one.
    pub line: usize,
    /// The column at which it starts, counted from one.
    pub column: usize,
    /// The text that was found, possibly written as a pattern literal.
    pub evidence: String,
    /// A label for what surrounds it.
    pub scope: String,
}

/// A finding as a mathematical value.
pub struct FindingView {
    /// The line on which it stands, counted from one.
    pub line: nat,
    /// The column at which it starts, counted from one.
    pub column: nat,
    /// The text that was found.
    pub evidence: Seq<char>,
    /// A label for what surrounds it.
    pub scope: Seq<char>,
}

impl View for Finding {
    type V = FindingView;

    open spec fn view(&self) -> FindingView {
        FindingView {
            line: self.line as nat,
            column: self.column as nat,
            evidence: self.evidence@,
            scope: self.scope@,
        }
    }
}

impl DeepView for Finding {
    type V = FindingView;

    open spec fn deep_view(&self) -> FindingView {
        self@
    }
}

/// What stood before and behind the evidence on a line where the capturing
/// pattern matched. A side is `None` where its group took no part in the
/// match.
#[derive(Clone, Debug)]
pub struct Capture {
    /// What the group `left` held: the text before the evidence.
    pub left: Option<String>,
    /// What the group `right` held: the text behind the evidence.
    pub right: Option<String>,
}

/// The two sides of a capture as mathematical values.
pub type Sides = (Option<Seq<char>>, Option<Seq<char>>);

/// The text of an optional string.
pub open spec fn text_of(part: Option<String>) -> Option<Seq<char>> {
    match part {
        Some(text) => Some(text@),
        None => None,
    }
}

impl View for Capture {
    type V = Sides;

    open spec fn view(&self) -> Sides {
        (text_of(self.left), text_of(self.right))
    }
}

/// The sides of an optional capture.
pub open spec fn sides_of(capture: Option<Capture>) -> Option<Sides> {
    match capture {
        Some(found) => Some(found@),
        None => None,
    }
}

/// A rewritten document.
#[derive(Clone, Debug)]
pub struct Rewrite {
    /// The text after every finding has been applied.
    pub document: String,
    /// The indices of the findings whose evidence was not found on their
    /// line, in rising order.
    pub unmatched: Vec<usize>,
}

/// A pattern that the pattern engine did not accept.
#[derive(Debug)]
pub struct PatternError {
    /// The index of the finding whose evidence gave the pattern.
    pub finding: usize,
    /// The capturing pattern that was handed to the engine.
    pub pattern: String,
    /// The indices of the findings before it whose evidence was not found
    /// on their line, in rising order.
    pub unmatched: Vec<usize>,
    /// What the engine said.
    pub cause: regex::Error,
}

/// `regex::Error`: what the pattern engine says of a pattern that it does
/// not accept. The library hands it on as it comes.
#[verifier::external_type_specification]
#[verifier::external_body]
pub struct ExPatternFault(regex::Error);

/// Whether the pattern engine accepts `pattern`: whether `regex::Regex::new`
/// compiles it. The engine refuses what is no regular expression, and an
/// expression whose compiled form is larger than the size limit that it is
/// built with.
pub uninterp spec fn accepted(pattern: Seq<char>) -> bool;

/// What the groups named `first` and `second` hold in the leftmost match
/// of the regular expression `pattern` in `text`, as `regex::Regex` finds
/// it. `None` where the expression matches nowhere in `text`; for a group
/// `None` where the expression has no group of that name or the group took
/// no part in the match.
pub uninterp spec fn captured(
    pattern: Seq<char>,
    text: Seq<char>,
    first: Seq<char>,
    second: Seq<char>,
) -> Option<(Option<Seq<char>>, Option<Seq<char>>)>;

/// The call that looks up the text for `key` in the chosen language.
pub open spec fn placeholder_for(key: Seq<char>) -> Seq<char> {
    "{{t '"@ + key + "'}}"@
}

/// The regular expression that splits a line at `pattern`: the shortest
/// text before it in the group `left`, `pattern` in the group `evidence`,
/// what follows in the group `right`.
pub open spec fn capture_pattern_for(pattern: Seq<char>) -> Seq<char> {
    "(?P<left>.*?)(?P<evidence>"@ + pattern + ")(?P<right>.*)"@
}

/// A side of a capture; empty where the group took no part.
pub open spec fn side(part: Option<Seq<char>>) -> Seq<char> {
    match part {
        Some(text) => text,
        None => Seq::empty(),
    }
}

/// The line that takes the place of one on which `pattern` was found
/// between `sides`: the placeholder for the slug of `pattern` between what
/// stood left and right of the evidence.
pub open spec fn rewritten_line(pattern: Seq<char>, sides: Sides) -> Seq<char> {
    side(sides.0) + placeholder_for(slug_of(pattern)) + side(sides.1)
}

/// `document` after the capturing pattern of `pattern` was tried on its
/// line `line`: unchanged where nothing was captured, else with every
/// occurrence of the text of `line` replaced by the rewritten line.
pub open spec fn with_capture(
    document: Seq<char>,
    line: Seq<char>,
    pattern: Seq<char>,
    capture: Option<Sides>,
) -> Seq<char> {
    match capture {
        Some(sides) => replaced(document, line, rewritten_line(pattern, sides)),
        None => document,
    }
}

/// The line of `document` that a finding on line `line` speaks of. Lines
/// are counted from one; `None` where `document` has no such line.
pub open spec fn target_line(document: Seq<char>, line: nat) -> Option<Seq<char>> {
    if line == 0 {
        None
    } else {
        line_at(document, (line - 1) as nat)
    }
}

/// What the capturing pattern of `finding` captures on `line`.
pub open spec fn captured_on(line: Seq<char>, finding: FindingView) -> Option<Sides> {
    captured(capture_pattern_for(matching_pattern(finding.evidence)), line, "left"@, "right"@)
}

/// `document` after `finding` has been applied to it.
pub open spec fn step(document: Seq<char>, finding: FindingView) -> Seq<char> {
    match target_line(document, finding.line) {
        Some(line) => with_capture(
            document,
            line,
            matching_pattern(finding.evidence),
            captured_on(line, finding),
        ),
        None => document,
    }
}

/// Whether the line of `finding` is in `document` and its evidence is not
/// found there.
pub open spec fn is_unmatched(document: Seq<char>, finding: FindingView) -> bool {
    match target_line(document, finding.line) {
        Some(line) => captured_on(line, finding) is None,
        None => false,
    }
}

/// Whether the line of `finding` is in `document` and its evidence is
/// found there, so that applying it puts a placeholder in.
pub open spec fn is_applied(document: Seq<char>, finding: FindingView) -> bool {
    match target_line(document, finding.line) {
        Some(line) => captured_on(line, finding) is Some,
        None => false,
    }
}

/// `document` after the findings have been applied to it one after the
/// other, each to what the earlier ones have left.
pub open spec fn rewritten(document: Seq<char>, findings: Seq<FindingView>) -> Seq<char>
    decreases findings.len(),
{
    if findings.len() == 0 {
        document
    } else {
        step(rewritten(document, findings.drop_last()), findings.last())
    }
}

/// The document as the finding with index `i` meets it: after the findings
/// before it have been applied.
pub open spec fn document_at(
    document: Seq<char>,
    findings: Seq<FindingView>,
    i: int,
) -> Seq<char> {
    rewritten(document, findings.take(i))
}

/// Whether applying `finding` to `document` is sure to leave `part`
/// standing: the finding changes nothing, or `part` stands at a place into
/// which no occurrence of the text of the finding's line reaches.
pub open spec fn spares(document: Seq<char>, finding: FindingView, part: Seq<char>) -> bool {
    ||| step(document, finding) == document
    ||| {
        &&& target_line(document, finding.line) matches Some(line)
        &&& line.len() > 0
        &&& exists|at: int| stands_clear(document, part, at, line)
    }
}

/// Whether the line of `finding` is in `document` and the engine refuses
/// the capturing pattern of its evidence.
pub open spec fn is_refused(document: Seq<char>, finding: FindingView) -> bool {
    &&& target_line(document, finding.line) is Some
    &&& !accepted(capture_pattern_for(matching_pattern(finding.evidence)))
}

/// Whether the finding with index `i` is refused when its turn comes.
pub open spec fn refused_at(document: Seq<char>, findings: Seq<FindingView>, i: int) -> bool {
    is_refused(document_at(document, findings, i), findings[i])
}

/// The indices of the findings whose evidence is not found on their line
/// when their turn comes, in rising order.
pub open spec fn unmatched_in(document: Seq<char>, findings: Seq<FindingView>) -> Seq<usize>
    decreases findings.len(),
{
    if findings.len() == 0 {
        Seq::empty()
    } else {
        let before = unmatched_in(document, findings.drop_last());
        if is_unmatched(rewritten(document, findings.drop_last()), findings.last()) {
            before.push((findings.len() - 1) as usize)
        } else {
            before
        }
    }
}

/// Whether `line`, counted from one, names no line of `document`.
pub open spec fn is_out_of_range(document: Seq<char>, line: nat) -> bool {
    line == 0 || line > lines_of(document).len()
}

/// Whether none of the findings names a line of `document`.
pub open spec fn all_out_of_range(document: Seq<char>, findings: Seq<FindingView>) -> bool {
    forall|i: int|
        0 <= i < findings.len() ==> is_out_of_range(document, (#[trigger] findings[i]).line)
}

/// Applies the findings to `document`, in their order, each to the text
/// that the earlier ones have left.
///
/// A finding whose line is not in the document is passed over. For any
/// other, the capturing pattern of its evidence is tried on its line.
/// Where it matches, every occurrence of that line's text in the document
/// is replaced by the line with the placeholder in the place of the
/// evidence. Where it does not, the document stays as it is and the
/// finding's index is reported in `unmatched`.
///
/// A pattern that the engine does not accept ends the run with an error
/// that names the finding, whatever the findings before it have done. Only
/// a finding whose line is in the document can do so: no other pattern is
/// handed to the engine. So the run succeeds exactly where no finding is
/// refused when its turn comes, and fails at the first that is.
pub fn apply_findings(document: &str, findings: &[Finding]) -> (result: Result<
    Rewrite,
    PatternError,
>)
    ensures
        match result {
            Ok(done) => {
                &&& done.document@ == rewritten(document@, findings.deep_view())
                &&& done.unmatched@ == unmatched_in(document@, findings.deep_view())
                &&& forall|j: int|
                    0 <= j < findings.len() ==> !#[trigger] refused_at(
                        document@,
                        findings.deep_view(),
                        j,
                    )
            },
            Err(error) => {
                &&& error.finding < findings.len()
                &&& refused_at(document@, findings.deep_view(), error.finding as int)
                &&& forall|j: int|
                    0 <= j < error.finding ==> !#[trigger] refused_at(
                        document@,
                        findings.deep_view(),
                        j,
                    )
                &&& error.pattern@ == capture_pattern_for(
                    matching_pattern(findings[error.finding as int].evidence@),
                )
                &&& error.unmatched@ == unmatched_in(
                    document@,
                    findings.deep_view().take(error.finding as int),
                )
            },
        },
        result is Err <==> exists|j: int|
            0 <= j < findings.len() && #[trigger] refused_at(document@, findings.deep_view(), j),
        all_out_of_range(document@, findings.deep_view()) ==> (result matches Ok(done)
            && done.document@ == document@ && done.unmatched@.len() == 0),
{
    let ghost all = findings.deep_view();
    let mut current = String::from_str(document);
    let mut unmatched: Vec<usize> = Vec::new();
    let mut i: usize = 0;
    while i < findings.len()
        invariant
            i <= findings.len(),
            all == findings.deep_view(),
            current@ == rewritten(document@, all.take(i as int)),
            unmatched@ == unmatched_in(document@, all.take(i as int)),
            forall|j: int| 0 <= j < i ==> !#[trigger] refused_at(document@, all, j),
        decreases findings.len() - i,
    {
        let finding = &findings[i];
        proof {
            assert(all.take(i + 1).drop_last() == all.take(i as int));
            assert(all.take(i + 1).last() == finding@);
        }
        if finding.line >= 1 {
            match nth_line(current.as_str(), finding.line - 1) {
                Some(line) => {
                    let pattern = normalize_for_matching(finding.evidence.as_str());
                    let full = capture_pattern(pattern.as_str());
                    match capture_named(full.as_str(), line.as_str(), "left", "right") {
                        Ok(capture) => {
                            if capture.is_none() {
                                unmatched.push(i);
                            } else {
                                current =
                                apply_capture(
                                    current.as_str(),
                                    line.as_str(),
                                    pattern.as_str(),
                                    &capture,
                                );
                            }
                        },
                        Err(cause) => {
                            proof {
                                if all_out_of_range(document@, all) {
                                    lemma_all_out_of_range(document@, all.take(i as int));
                                }
                            }
                            assert(refused_at(document@, all, i as int));
                            return Err(PatternError { finding: i, pattern: full, unmatched, cause });
                        },
                    }
                },
                None => {},
            }
        }
        i += 1;
    }
    proof {
        assert(all.take(findings.len() as int) == all);
        if all_out_of_range(document@, all) {
            lemma_all_out_of_range(document@, all);
        }
    }
    Ok(Rewrite { document: current, unmatched })
}

/// `document` after the capturing pattern of `pattern` was tried on its
/// line `line` and gave `capture`.
///
/// Without a capture the document stays as it is. With one, every
/// occurrence of the text of `line` in the document, on whatever line it
/// stands, is replaced by the rewritten line.
pub fn apply_capture(document: &str, line: &str, pattern: &str, capture: &Option<Capture>) -> (out:
    String)
    ensures
        out@ == with_capture(document@, line@, pattern@, sides_of(*capture)),
{
    match capture {
        Some(found) => {
            let new_line = rewrite_line(pattern, found);
            replace_all(document, line, new_line.as_str())
        },
        None => String::from_str(document),
    }
}

/// The line that takes the place of one on which `pattern` was found:
/// what was captured left of the evidence, the placeholder for the slug of
/// `pattern`, what was captured right of it.
pub fn rewrite_line(pattern: &str, capture: &Capture) -> (line: String)
    ensures
        line@ == rewritten_line(pattern@, capture@),
{
    let mut line = String::new();
    match &capture.left {
        Some(left) => line.append(left.as_str()),
        None => {},
    }
    let key = slugify(pattern);
    line.append(placeholder(key.as_str()).as_str());
    match &capture.right {
        Some(right) => line.append(right.as_str()),
        None => {},
    }
    line
}

/// The call that looks up the text for `key` in the chosen language: `{{t 'key'}}`.
pub fn placeholder(key: &str) -> (call: String)
    ensures
        call@ == placeholder_for(key@),
{
    let mut call = String::from_str("{{t '");
    call.append(key);
    call.append("'}}");
    call
}

/// The regular expression that splits a line at `pattern`. The pattern is
/// put in as it is: nothing in it is escaped.
pub fn capture_pattern(pattern: &str) -> (full: String)
    ensures
        full@ == capture_pattern_for(pattern@),
{
    let mut full = String::from_str("(?P<left>.*?)(?P<evidence>");
    full.append(pattern);
    full.append(")(?P<right>.*)");
    full
}

/// A finding whose line is not in the document leaves the document as it
/// is, and is not reported as unmatched.
pub proof fn lemma_out_of_range(document: Seq<char>, finding: FindingView)
    requires
        is_out_of_range(document, finding.line),
    ensures
        step(document, finding) == document,
        !is_unmatched(document, finding),
        !is_applied(document, finding),
{
}

/// Findings whose lines are not in the document leave it as it is, however
/// many they are, and none of them is reported as unmatched.
pub proof fn lemma_all_out_of_range(document: Seq<char>, findings: Seq<FindingView>)
    requires
        all_out_of_range(document, findings),
    ensures
        rewritten(document, findings) == document,
        unmatched_in(document, findings) == Seq::<usize>::empty(),
    decreases findings.len(),
{
    if findings.len() > 0 {
        lemma_all_out_of_range(document, findings.drop_last());
    }
}

/// A finding whose evidence is not found on its line leaves the document
/// as it is.
pub proof fn lemma_unmatched(document: Seq<char>, finding: FindingView)
    requires
        is_unmatched(document, finding),
    ensures
        step(document, finding) == document,
{
}

/// Where the text of the finding's line stands nowhere else in the
/// document, applying the finding puts the rewritten line in its place and
/// leaves everything before and behind the line as it is.
pub proof fn lemma_only_the_line_changes(
    finding: FindingView,
    first: Seq<char>,
    line: Seq<char>,
    last: Seq<char>,
)
    requires
        line.len() > 0,
        ends_a_line(first),
        !contains(first, line),
        !contains(last, line),
        target_line(first + line + last, finding.line) == Some(line),
        captured_on(line, finding) is Some,
    ensures
        step(first + line + last, finding) == first + rewritten_line(
            matching_pattern(finding.evidence),
            captured_on(line, finding)->0,
        ) + last,
{
    let new_line = rewritten_line(
        matching_pattern(finding.evidence),
        captured_on(line, finding)->0,
    );
    lemma_line_stands(first + line + last, (finding.line - 1) as nat);
    lemma_replaced_on_one_line(first, line, last, new_line);
}

/// Replacing goes by the text of the line, not by its place: where the
/// text of the finding's line starts two lines of the document, applying
/// the finding puts the same rewritten line in the place of both, and
/// replaces every occurrence of the text before, between and behind them.
pub proof fn lemma_both_lines_rewritten(
    finding: FindingView,
    first: Seq<char>,
    line: Seq<char>,
    between: Seq<char>,
    last: Seq<char>,
)
    requires
        line.len() > 0,
        ends_a_line(first),
        between.len() > 0,
        ends_a_line(between),
        target_line(first + line + between + line + last, finding.line) == Some(line),
        captured_on(line, finding) is Some,
    ensures
        ({
            let new_line = rewritten_line(
                matching_pattern(finding.evidence),
                captured_on(line, finding)->0,
            );
            step(first + line + between + line + last, finding) == replaced(first, line, new_line)
                + new_line + replaced(between, line, new_line) + new_line + replaced(
                last,
                line,
                new_line,
            )
        }),
{
    let document = first + line + between + line + last;
    let new_line = rewritten_line(
        matching_pattern(finding.evidence),
        captured_on(line, finding)->0,
    );
    lemma_line_stands(document, (finding.line - 1) as nat);
    lemma_replaced_on_both_lines(first, line, between, last, new_line);
}

/// A finding that spares a part of the document leaves it standing.
pub proof fn lemma_spared(document: Seq<char>, finding: FindingView, part: Seq<char>)
    requires
        contains(document, part),
        spares(document, finding, part),
    ensures
        contains(step(document, finding), part),
{
    if step(document, finding) != document {
        let line = target_line(document, finding.line)->0;
        let at = choose|at: int| stands_clear(document, part, at, line);
        let new_line = rewritten_line(
            matching_pattern(finding.evidence),
            captured_on(line, finding)->0,
        );
        lemma_replaced_keeps(document, part, at, line, new_line);
    }
}

/// After a finding has been applied, the placeholder for the slug of its
/// pattern stands in the document.
pub proof fn lemma_placeholder_stands(document: Seq<char>, finding: FindingView)
    requires
        is_applied(document, finding),
    ensures
        contains(
            step(document, finding),
            placeholder_for(slug_of(matching_pattern(finding.evidence))),
        ),
{
    let line = target_line(document, finding.line)->0;
    let sides = captured_on(line, finding)->0;
    let pattern = matching_pattern(finding.evidence);
    let call = placeholder_for(slug_of(pattern));
    let new_line = rewritten_line(pattern, sides);
    lemma_line_stands(document, (finding.line - 1) as nat);
    lemma_replaced_contains(document, line, new_line);
    let at = side(sides.0).len() as int;
    assert(new_line.subrange(at, at + call.len()) == call);
    assert(occurs_at(new_line, call, at));
    lemma_contains_inner(step(document, finding), new_line, call);
}

/// Compiles `pattern` with `regex::Regex::new`, searches `text` with
/// `Regex::captures` and reads the groups `first` and `second` with
/// `Captures::name`. An error is what `Regex::new` returned: it comes
/// exactly where the engine does not accept the pattern. Where the pattern
/// compiles, the result is what the engine finds: the same for the same
/// pattern, text and names.
#[verifier::external_body]
fn capture_named(pattern: &str, text: &str, first: &str, second: &str) -> (found: Result<
    Option<Capture>,
    regex::Error,
>)
    ensures
        found is Ok <==> accepted(pattern@),
        found matches Ok(capture) ==> sides_of(capture) == captured(
            pattern@,
            text@,
            first@,
            second@,
        ),
{
    let compiled = regex::Regex::new(pattern)?;
    match compiled.captures(text) {
        Some(groups) => Ok(Some(Capture {
            left: groups.name(first).map(|found| found.as_str().to_string()),
            right: groups.name(second).map(|found| found.as_str().to_string()),
        })),
        None => Ok(None),
    }
}

} // verus!
