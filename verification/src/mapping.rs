//! The mapping table: the keys of the placeholders and the literals that
//! they stand for.

use crate::evidence::{key_literal, normalize_for_key, strip_parentheses, without_parentheses};
use crate::rewrite::{Finding, FindingView};
use crate::slug::{slug_of, slugify};
use vstd::prelude::*;

verus! {

/// The mapping table: an unordered map from keys to literals.
#[derive(Debug)]
pub struct MappingTable {
    entries: Vec<(String, String)>,
}

impl View for MappingTable {
    type V = Map<Seq<char>, Seq<char>>;

    closed spec fn view(&self) -> Map<Seq<char>, Seq<char>> {
        table_of(self.entries.deep_view())
    }
}

/// A table that could not be written as JSON.
#[derive(Debug)]
pub struct RenderError {
    /// What the serializer said.
    pub cause: serde_json::Error,
}

/// `serde_json::Error`: what the serializer says where it fails. The
/// library hands it on as it comes.
#[verifier::external_type_specification]
#[verifier::external_body]
pub struct ExJsonFault(serde_json::Error);

/// The table that a sequence of entries stands for: each entry is put in
/// under its key, a later one in the place of an earlier one with the same
/// key.
pub open spec fn table_of(entries: Seq<(Seq<char>, Seq<char>)>) -> Map<Seq<char>, Seq<char>>
    decreases entries.len(),
{
    if entries.len() == 0 {
        Map::empty()
    } else {
        table_of(entries.drop_last()).insert(entries.last().0, entries.last().1)
    }
}

/// Whether no two entries have the same key.
pub open spec fn distinct_keys(entries: Seq<(Seq<char>, Seq<char>)>) -> bool {
    forall|i: int, j: int| 0 <= i < j < entries.len() ==> entries[i].0 != entries[j].0
}

/// The literal that is stored for `evidence`: the literal it stands for,
/// without one more pair of parentheses around it.
pub open spec fn mapped_literal(evidence: Seq<char>) -> Seq<char> {
    without_parentheses(key_literal(evidence))
}

/// The key under which the literal of `evidence` is stored.
pub open spec fn mapping_key(evidence: Seq<char>) -> Seq<char> {
    slug_of(mapped_literal(evidence))
}

/// The entry that a finding gives: its literal under its key.
pub open spec fn entry_of(finding: FindingView) -> (Seq<char>, Seq<char>) {
    (mapping_key(finding.evidence), mapped_literal(finding.evidence))
}

/// The entries that the findings give, in their order.
pub open spec fn entries_of(findings: Seq<FindingView>) -> Seq<(Seq<char>, Seq<char>)> {
    Seq::new(findings.len(), |i: int| entry_of(findings[i]))
}

/// The table of the findings: for each finding, in order, its literal under
/// its key. Where two findings have the same key, the later one stays.
pub open spec fn mapping_of(findings: Seq<FindingView>) -> Map<Seq<char>, Seq<char>> {
    table_of(entries_of(findings))
}

/// The name of the file that holds the table for the document named `stem`
/// in the language `language`.
pub open spec fn mapping_file_name_for(stem: Seq<char>, language: Seq<char>) -> Seq<char> {
    stem + "."@ + language + ".json"@
}

/// The table as `serde_json::to_string_pretty` writes it: one JSON object
/// with a member for each key, the keys in rising order.
pub uninterp spec fn pretty_json_of(table: Map<Seq<char>, Seq<char>>) -> Seq<char>;

/// The table of the findings: for each finding, whether or not its
/// evidence is found in any document, the literal of its evidence under
/// the slug of that literal. The literal is the evidence in its normal form
/// for keys, without one more pair of parentheses around it. Where two
/// findings have the same key, the later one stays.
pub fn build_mapping(findings: &[Finding]) -> (table: MappingTable)
    ensures
        table@ == mapping_of(findings.deep_view()),
{
    let ghost all = findings.deep_view();
    let mut table = MappingTable::new();
    let mut i: usize = 0;
    while i < findings.len()
        invariant
            i <= findings.len(),
            all == findings.deep_view(),
            table@ == mapping_of(all.take(i as int)),
        decreases findings.len() - i,
    {
        proof {
            let next = entries_of(all.take(i + 1));
            assert(next.drop_last() == entries_of(all.take(i as int)));
        }
        let literal = stored_literal(findings[i].evidence.as_str());
        let key = slugify(literal.as_str());
        table.insert(key, literal);
        i += 1;
    }
    assert(all.take(findings.len() as int) == all);
    table
}

/// The literal that is stored for `evidence`: its normal form for keys,
/// without one more pair of parentheses around it.
pub fn stored_literal(evidence: &str) -> (literal: String)
    ensures
        literal@ == mapped_literal(evidence@),
{
    strip_parentheses(normalize_for_key(evidence).as_str())
}

/// What the serializer's answer becomes: its text as it is, its error as
/// the cause of a `RenderError`.
pub fn rendered(outcome: Result<String, serde_json::Error>) -> (result: Result<
    String,
    RenderError,
>)
    ensures
        match outcome {
            Ok(text) => result == Ok::<String, RenderError>(text),
            Err(cause) => result == Err::<String, RenderError>((RenderError { cause })),
        },
{
    match outcome {
        Ok(text) => Ok(text),
        Err(cause) => Err(RenderError { cause }),
    }
}

/// The name of the file that holds the table for the document named `stem`
/// in the language `language`: `stem.language.json`.
pub fn mapping_file_name(stem: &str, language: &str) -> (name: String)
    ensures
        name@ == mapping_file_name_for(stem@, language@),
{
    let mut name = String::from_str(stem);
    name.append(".");
    name.append(language);
    name.append(".json");
    name
}

impl MappingTable {
    #[verifier::type_invariant]
    spec fn keys_are_distinct(self) -> bool {
        distinct_keys(self.entries.deep_view())
    }

    /// The table without any entry.
    pub fn new() -> (table: Self)
        ensures
            table@ == Map::<Seq<char>, Seq<char>>::empty(),
    {
        MappingTable { entries: Vec::new() }
    }

    /// The number of keys.
    pub fn len(&self) -> (count: usize)
        ensures
            self@.dom().finite(),
            count == self@.dom().len(),
    {
        proof {
            use_type_invariant(self);
            lemma_table_len(self.entries.deep_view());
        }
        self.entries.len()
    }

    /// The literal that is stored under `key`; `None` where the table has
    /// no such key.
    pub fn get(&self, key: &str) -> (found: Option<&String>)
        ensures
            match found {
                Some(literal) => self@.contains_key(key@) && self@[key@] == literal@,
                None => !self@.contains_key(key@),
            },
    {
        proof {
            use_type_invariant(self);
        }
        match self.position(&String::from_str(key)) {
            Some(i) => {
                proof {
                    lemma_table_holds(self.entries.deep_view(), i as int);
                }
                Some(&self.entries[i].1)
            },
            None => {
                proof {
                    lemma_table_keys(self.entries.deep_view(), key@);
                }
                None
            },
        }
    }

    /// Puts `literal` in the table under `key`, in the place of what stood
    /// there under the same key.
    pub fn insert(&mut self, key: String, literal: String)
        ensures
            final(self)@ == old(self)@.insert(key@, literal@),
    {
        proof {
            use_type_invariant(&*self);
        }
        let ghost before = self.entries.deep_view();
        let at = self.position(&key);
        let mut entries: Vec<(String, String)> = Vec::new();
        core::mem::swap(&mut self.entries, &mut entries);
        match at {
            Some(i) => {
                entries.set(i, (key, literal));
                proof {
                    assert(entries.deep_view() == before.update(i as int, (key@, literal@)));
                    lemma_table_update(before, i as int, literal@);
                }
            },
            None => {
                entries.push((key, literal));
                proof {
                    let after = entries.deep_view();
                    assert(after == before.push((key@, literal@)));
                    assert(after.drop_last() == before);
                }
            },
        }
        self.entries = entries;
    }

    /// The entries of the table, each key with its literal. No key comes
    /// twice.
    pub fn entries(&self) -> (out: Vec<(String, String)>)
        ensures
            distinct_keys(out.deep_view()),
            table_of(out.deep_view()) == self@,
    {
        proof {
            use_type_invariant(self);
        }
        let mut out: Vec<(String, String)> = Vec::new();
        let mut i: usize = 0;
        while i < self.entries.len()
            invariant
                i <= self.entries.len(),
                out.deep_view() == self.entries.deep_view().take(i as int),
            decreases self.entries.len() - i,
        {
            let ghost before = out.deep_view();
            out.push((self.entries[i].0.clone(), self.entries[i].1.clone()));
            assert(out.deep_view() == before.push(self.entries.deep_view()[i as int]));
            i += 1;
        }
        assert(self.entries.deep_view().take(self.entries.len() as int)
            == self.entries.deep_view());
        out
    }

    /// The table as a JSON object with a member for each key, the keys in
    /// rising order, written over several lines.
    ///
    /// The whole table is handed to the serializer, and what it gives is
    /// handed on. It writes every table of texts, so the result is never
    /// an error.
    pub fn to_json(&self) -> (result: Result<String, RenderError>)
        ensures
            result is Ok,
            result matches Ok(text) ==> text@ == pretty_json_of(self@),
    {
        proof {
            use_type_invariant(self);
        }
        rendered(pretty_json(&self.entries))
    }

    /// Where the entry with the key `key` stands.
    fn position(&self, key: &String) -> (at: Option<usize>)
        ensures
            match at {
                Some(i) => i < self.entries.len() && self.entries.deep_view()[i as int].0 == key@,
                None => forall|i: int|
                    0 <= i < self.entries.len() ==> (#[trigger] self.entries.deep_view()[i]).0
                        != key@,
            },
    {
        let mut i: usize = 0;
        while i < self.entries.len()
            invariant
                i <= self.entries.len(),
                forall|j: int| 0 <= j < i ==> (#[trigger] self.entries.deep_view()[j]).0 != key@,
            decreases self.entries.len() - i,
        {
            if self.entries[i].0 == *key {
                return Some(i);
            }
            i += 1;
        }
        None
    }
}

/// Last write wins: of two findings with the same key, the later one gives
/// the literal that the table holds under that key, if no finding behind it
/// has the key too. The two give one entry: the table has fewer entries
/// than there are findings, and exactly one where they are the only
/// findings.
pub proof fn lemma_later_finding_stays(findings: Seq<FindingView>, i: int, j: int)
    requires
        0 <= i < j < findings.len(),
        mapping_key(findings[i].evidence) == mapping_key(findings[j].evidence),
        forall|k: int|
            j < k < findings.len() ==> mapping_key(findings[k].evidence) != mapping_key(
                findings[j].evidence,
            ),
    ensures
        mapping_of(findings).contains_key(mapping_key(findings[j].evidence)),
        mapping_of(findings)[mapping_key(findings[j].evidence)] == mapped_literal(
            findings[j].evidence,
        ),
        mapping_of(findings).dom().finite(),
        mapping_of(findings).dom().len() < findings.len(),
        findings.len() == 2 ==> mapping_of(findings).dom().len() == 1,
{
    let entries = entries_of(findings);
    lemma_table_holds(entries, j);
    lemma_table_collision(entries, i, j);
}

/// A finding that comes twice gives what it gives once.
pub proof fn lemma_duplicate_finding(findings: Seq<FindingView>, finding: FindingView)
    ensures
        mapping_of(findings.push(finding).push(finding)) == mapping_of(findings.push(finding)),
{
    let once = entries_of(findings.push(finding));
    let twice = entries_of(findings.push(finding).push(finding));
    assert(twice.drop_last() == once);
}

/// The table depends on the evidence of the findings alone: it has a key
/// exactly where a finding gives it, whatever the finding's line.
pub proof fn lemma_mapping_keys(findings: Seq<FindingView>, key: Seq<char>)
    ensures
        mapping_of(findings).contains_key(key) <==> exists|i: int|
            0 <= i < findings.len() && mapping_key((#[trigger] findings[i]).evidence) == key,
{
    let entries = entries_of(findings);
    lemma_table_keys(entries, key);
    if mapping_of(findings).contains_key(key) {
        let i = choose|i: int| 0 <= i < entries.len() && (#[trigger] entries[i]).0 == key;
        assert(mapping_key(findings[i].evidence) == key);
    }
    if exists|i: int|
        0 <= i < findings.len() && mapping_key((#[trigger] findings[i]).evidence) == key {
        let i = choose|i: int|
            0 <= i < findings.len() && mapping_key((#[trigger] findings[i]).evidence) == key;
        assert(entries[i].0 == key);
    }
}

/// The keys of a table are the keys of its entries.
pub proof fn lemma_table_keys(entries: Seq<(Seq<char>, Seq<char>)>, key: Seq<char>)
    ensures
        table_of(entries).contains_key(key) <==> exists|i: int|
            0 <= i < entries.len() && (#[trigger] entries[i]).0 == key,
    decreases entries.len(),
{
    if entries.len() > 0 {
        let front = entries.drop_last();
        lemma_table_keys(front, key);
        if table_of(front).contains_key(key) {
            let i = choose|i: int| 0 <= i < front.len() && (#[trigger] front[i]).0 == key;
            assert(entries[i].0 == key);
        }
        if entries.last().0 == key {
            assert(entries[entries.len() - 1].0 == key);
        }
        if exists|i: int| 0 <= i < entries.len() && (#[trigger] entries[i]).0 == key {
            let i = choose|i: int| 0 <= i < entries.len() && (#[trigger] entries[i]).0 == key;
            if i < front.len() {
                assert(front[i].0 == key);
            }
        }
    }
}

/// An entry whose key no later entry has is what the table holds under
/// that key.
pub proof fn lemma_table_holds(entries: Seq<(Seq<char>, Seq<char>)>, i: int)
    requires
        0 <= i < entries.len(),
        forall|j: int| i < j < entries.len() ==> entries[j].0 != entries[i].0,
    ensures
        table_of(entries).contains_key(entries[i].0),
        table_of(entries)[entries[i].0] == entries[i].1,
    decreases entries.len(),
{
    if i < entries.len() - 1 {
        lemma_table_holds(entries.drop_last(), i);
    }
}

/// A table of entries with distinct keys has as many keys as there are
/// entries.
pub proof fn lemma_table_len(entries: Seq<(Seq<char>, Seq<char>)>)
    requires
        distinct_keys(entries),
    ensures
        table_of(entries).dom().finite(),
        table_of(entries).dom().len() == entries.len(),
    decreases entries.len(),
{
    if entries.len() > 0 {
        let front = entries.drop_last();
        lemma_table_len(front);
        lemma_table_keys(front, entries.last().0);
    }
}

/// A table has at most as many keys as there are entries.
pub proof fn lemma_table_bound(entries: Seq<(Seq<char>, Seq<char>)>)
    ensures
        table_of(entries).dom().finite(),
        table_of(entries).dom().len() <= entries.len(),
    decreases entries.len(),
{
    if entries.len() > 0 {
        lemma_table_bound(entries.drop_last());
    }
}

/// Two entries with the same key give one key: the table then has fewer
/// keys than there are entries.
pub proof fn lemma_table_collision(entries: Seq<(Seq<char>, Seq<char>)>, i: int, j: int)
    requires
        0 <= i < j < entries.len(),
        entries[i].0 == entries[j].0,
    ensures
        table_of(entries).dom().finite(),
        table_of(entries).dom().len() < entries.len(),
    decreases entries.len(),
{
    let front = entries.drop_last();
    lemma_table_bound(front);
    if j == entries.len() - 1 {
        assert(front[i].0 == entries.last().0);
        lemma_table_keys(front, entries.last().0);
    } else {
        lemma_table_collision(front, i, j);
    }
}

/// Putting a new value in the place of an entry's value is inserting it
/// under the entry's key, where the keys are distinct.
proof fn lemma_table_update(entries: Seq<(Seq<char>, Seq<char>)>, i: int, literal: Seq<char>)
    requires
        0 <= i < entries.len(),
        distinct_keys(entries),
    ensures
        distinct_keys(entries.update(i, (entries[i].0, literal))),
        table_of(entries.update(i, (entries[i].0, literal))) == table_of(entries).insert(
            entries[i].0,
            literal,
        ),
    decreases entries.len(),
{
    let key = entries[i].0;
    let updated = entries.update(i, (key, literal));
    let front = entries.drop_last();
    if i == entries.len() - 1 {
        assert(updated.drop_last() == front);
    } else {
        lemma_table_update(front, i, literal);
        assert(updated.drop_last() == front.update(i, (key, literal)));
    }
}

/// Calls `serde_json::to_string_pretty` on the entries, gathered in a
/// `BTreeMap`. The serializer writes the members in the map's order, the
/// rising order of the keys, so the text depends on the table alone. Every
/// error of the serializer comes from the writer or from a key that is no
/// string; here it writes into memory and every key is a string, so it
/// gives no error.
#[verifier::external_body]
fn pretty_json(entries: &Vec<(String, String)>) -> (result: Result<String, serde_json::Error>)
    requires
        distinct_keys(entries.deep_view()),
    ensures
        result is Ok,
        result matches Ok(text) ==> text@ == pretty_json_of(table_of(entries.deep_view())),
{
    let sorted: std::collections::BTreeMap<&String, &String> = entries.iter().map(
        |entry| (&entry.0, &entry.1),
    ).collect();
    serde_json::to_string_pretty(&sorted)
}

} // verus!
