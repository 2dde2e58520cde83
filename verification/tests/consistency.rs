use replacehcstrings::consistency::same_key;
use replacehcstrings::evidence::normalize_for_matching;
use replacehcstrings::mapping::{build_mapping, stored_literal};
use replacehcstrings::rewrite::{apply_findings, placeholder, Finding};
use replacehcstrings::slug::slugify;

fn finding(line: usize, evidence: &str) -> Finding {
    Finding { line, column: 1, evidence: evidence.to_string(), scope: String::from("text") }
}

fn rewriting_key(evidence: &str) -> String {
    slugify(&normalize_for_matching(evidence))
}

fn table_key(evidence: &str) -> String {
    slugify(&stored_literal(evidence))
}

#[test]
fn keys_agree_on_the_usual_shapes() {
    let shapes = [
        "Hello, world!",
        "Plain text",
        "/Hello, world!/",
        "/Plain text/",
        "(Hello)",
        "/(Hello)/",
        "a\\.b",
        "/a\\.b/",
        "Price \\(net\\)",
        "",
        "//",
    ];
    for evidence in shapes {
        assert_eq!(rewriting_key(evidence), table_key(evidence), "{:?}", evidence);
        assert!(same_key(evidence), "{:?}", evidence);
    }
}

#[test]
fn keys_differ_where_flag_letters_follow() {
    assert_eq!(rewriting_key("/Hello/m"), "hello");
    assert_eq!(table_key("/Hello/m"), "hellom");
    assert!(!same_key("/Hello/m"));
    assert!(!same_key("/a/mm"));
    assert!(same_key("//a//"));
    assert!(same_key("((a))"));
}

#[test]
fn stored_literal_of_evidence() {
    assert_eq!(stored_literal("/Hello, world!/"), "Hello, world!");
    assert_eq!(stored_literal("((Yes))"), "Yes");
    assert_eq!(stored_literal("/(a\\.b)/"), "a.b");
    assert_eq!(stored_literal("(((No)))"), "(No)");
    assert_eq!(stored_literal(""), "");
}

#[test]
fn applied_findings_have_their_placeholder_and_their_key() {
    let document = "<h1>Hello, world!</h1>\n<p>Plain text</p>\n<p>Price (net)</p>\n<i>a.b</i>\n";
    let findings = vec![
        finding(1, "/Hello, world!/"),
        finding(2, "Plain text"),
        finding(2, "Missing"),
        finding(3, "Price \\(net\\)"),
        finding(4, "/a\\.b/"),
        finding(9, "Nowhere"),
    ];
    let done = apply_findings(document, &findings).ok().unwrap();
    let table = build_mapping(&findings);
    assert_eq!(done.unmatched, vec![2]);
    for (index, found) in findings.iter().enumerate() {
        let key = table_key(&found.evidence);
        assert!(table.get(&key).is_some());
        let applied = !done.unmatched.contains(&index) && found.line <= 4;
        if applied {
            assert!(done.document.contains(&placeholder(&key)), "{:?}", found.evidence);
        }
    }
    assert_eq!(
        done.document,
        "<h1>{{t 'hello_world'}}</h1>\n<p>{{t 'plain_text'}}</p>\n<p>{{t 'price_net'}}</p>\n<i>{{t 'ab'}}</i>\n"
    );
}

#[test]
fn unmatched_finding_has_a_key_and_no_placeholder() {
    let findings = vec![finding(1, "Missing")];
    let done = apply_findings("<p>Hello</p>", &findings).ok().unwrap();
    let table = build_mapping(&findings);
    assert_eq!(done.unmatched, vec![0]);
    assert_eq!(table.get("missing").unwrap(), "Missing");
    assert!(!done.document.contains(&placeholder("missing")));
}

#[test]
fn passed_over_finding_has_a_key_and_no_placeholder() {
    let findings = vec![finding(2, "Hello")];
    let done = apply_findings("<p>Hello</p>", &findings).ok().unwrap();
    let table = build_mapping(&findings);
    assert!(done.unmatched.is_empty());
    assert_eq!(table.get("hello").unwrap(), "Hello");
    assert_eq!(done.document, "<p>Hello</p>");
}

#[test]
fn keys_agree_without_flag_letters() {
    let shapes = [
        "Été (à Paris)",
        "/北亰/",
        "((a/b))",
        "\\(x\\)/",
        "/a/b/",
        "//",
        "/",
        "m",
        "Helm",
        "/mm",
        "a/m",
        "(/path/)",
        "/(Sign in)/",
        "/a\nb/m",
    ];
    for evidence in shapes {
        assert!(same_key(evidence), "{:?}", evidence);
        assert_eq!(table_key(evidence), slugify(evidence), "{:?}", evidence);
    }
}

#[test]
fn last_finding_that_is_applied_has_its_placeholder() {
    let document = "<h1>Été (à Paris)</h1>\n<p>Sign in</p>\n";
    let findings = vec![finding(2, "/Sign in/"), finding(1, "Été \\(à Paris\\)")];
    let done = apply_findings(document, &findings).ok().unwrap();
    let table = build_mapping(&findings);
    let key = table_key("Été \\(à Paris\\)");
    assert_eq!(key, "ete_a_paris");
    assert_eq!(table.get(&key).unwrap(), "Été (à Paris");
    assert!(done.document.contains(&placeholder(&key)));
    assert_eq!(done.document, "<h1>{{t 'ete_a_paris'}}</h1>\n<p>{{t 'sign_in'}}</p>\n");
}
