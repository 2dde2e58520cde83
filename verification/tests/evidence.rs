use replacehcstrings::evidence::{normalize_for_key, normalize_for_matching, strip_parentheses};

fn shapes() -> Vec<&'static str> {
    vec![
        "",
        "/",
        "//",
        "///",
        "//m",
        "/m",
        "/mm",
        "m",
        "mmm",
        "/a/",
        "/a/m",
        "/a/mm",
        "/a/g",
        "/a/mg",
        "/a/b/",
        "/a/b/m",
        "/am/m",
        "/a//",
        "a/",
        "a/b",
        "/a",
        " /a/",
        "/a/ ",
        "/a\nb/",
        "/a/\n",
        "\n/a/",
        "/a\r/",
        "/Hello, world!/",
        "Plain text",
        "/(Hello)/",
        "/a\\.b/m",
        "/é/",
        "/北/m",
        "/^start$/",
    ]
}

#[test]
fn pattern_of_wrapped_evidence() {
    assert_eq!(normalize_for_matching("/a/"), "a");
    assert_eq!(normalize_for_matching("/a/m"), "a");
    assert_eq!(normalize_for_matching("/a/mmm"), "a");
    assert_eq!(normalize_for_matching("/a/b/"), "a/b");
    assert_eq!(normalize_for_matching("/am/m"), "am");
    assert_eq!(normalize_for_matching("/a//"), "a/");
    assert_eq!(normalize_for_matching("//"), "");
    assert_eq!(normalize_for_matching("//m"), "");
    assert_eq!(normalize_for_matching("///"), "/");
    assert_eq!(normalize_for_matching("/(Hello)/"), "(Hello)");
    assert_eq!(normalize_for_matching("/a\\.b/m"), "a\\.b");
    assert_eq!(normalize_for_matching("/é/"), "é");
}

#[test]
fn pattern_of_other_evidence_is_the_evidence() {
    for evidence in ["", "/", "/m", "/mm", "m", "/a", "a/", "/a/g", "/a/mg", " /a/", "/a/ "] {
        assert_eq!(normalize_for_matching(evidence), evidence);
    }
}

#[test]
fn pattern_of_evidence_with_a_line_feed_is_the_evidence() {
    for evidence in ["/a\nb/", "/a/\n", "\n/a/", "/\n/m"] {
        assert_eq!(normalize_for_matching(evidence), evidence);
    }
    assert_eq!(normalize_for_matching("/a\r/"), "a\r");
}

#[test]
fn pattern_is_what_the_pattern_literal_expression_captures() {
    let shape = regex::Regex::new(r"^/(.*?)/[m]*$").unwrap();
    for evidence in shapes() {
        let expected = match shape.captures(evidence) {
            Some(groups) => groups.get(1).unwrap().as_str().to_string(),
            None => evidence.to_string(),
        };
        assert_eq!(normalize_for_matching(evidence), expected, "{:?}", evidence);
    }
}

#[test]
fn literal_loses_one_slash_at_each_end() {
    assert_eq!(normalize_for_key("/Hello/"), "Hello");
    assert_eq!(normalize_for_key("/Hello"), "Hello");
    assert_eq!(normalize_for_key("Hello/"), "Hello");
    assert_eq!(normalize_for_key("Hello"), "Hello");
    assert_eq!(normalize_for_key("//a//"), "/a/");
    assert_eq!(normalize_for_key("/"), "");
    assert_eq!(normalize_for_key("//"), "");
    assert_eq!(normalize_for_key(""), "");
    assert_eq!(normalize_for_key("/a/m"), "a/m");
}

#[test]
fn literal_loses_every_backslash() {
    assert_eq!(normalize_for_key("a\\.b"), "a.b");
    assert_eq!(normalize_for_key("\\\\a\\"), "a");
    assert_eq!(normalize_for_key("/\\(x\\)/"), "x");
    assert_eq!(normalize_for_key("\\"), "");
}

#[test]
fn literal_loses_one_pair_of_parentheses() {
    assert_eq!(normalize_for_key("(Hello)"), "Hello");
    assert_eq!(normalize_for_key("/(Hello)/"), "Hello");
    assert_eq!(normalize_for_key("((a))"), "(a)");
    assert_eq!(normalize_for_key("(a"), "a");
    assert_eq!(normalize_for_key("a)"), "a");
    assert_eq!(normalize_for_key(")a("), ")a(");
    assert_eq!(normalize_for_key("("), "");
    assert_eq!(normalize_for_key(")"), "");
    assert_eq!(normalize_for_key("()"), "");
    assert_eq!(normalize_for_key("(/a/)"), "/a/");
}

#[test]
fn literal_takes_the_steps_in_order() {
    assert_eq!(normalize_for_key("/\\/a/"), "/a");
    assert_eq!(normalize_for_key("\\(a)"), "a");
    assert_eq!(normalize_for_key("/(a)\\/"), "a");
}

#[test]
fn one_more_pair_of_parentheses() {
    assert_eq!(strip_parentheses("(a)"), "a");
    assert_eq!(strip_parentheses("((a))"), "(a)");
    assert_eq!(strip_parentheses("a"), "a");
    assert_eq!(strip_parentheses(""), "");
    assert_eq!(strip_parentheses(")("), ")(");
    assert_eq!(strip_parentheses("(é)"), "é");
}
