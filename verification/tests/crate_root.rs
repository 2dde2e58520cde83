use replacehcstrings::{
    apply_findings, build_mapping, mapping_file_name, normalize_for_key, normalize_for_matching,
    slugify, Finding,
};

#[test]
fn whole_run_from_the_crate_root() {
    let document = "<h1>Welcome</h1>\n<p>Sign in</p>\n<p>Sign in</p>\n<a>Help</a>\n";
    let findings = vec![
        Finding {
            line: 1,
            column: 5,
            evidence: String::from("/Welcome/"),
            scope: String::from("h1"),
        },
        Finding {
            line: 2,
            column: 4,
            evidence: String::from("Sign in"),
            scope: String::from("p"),
        },
        Finding {
            line: 4,
            column: 4,
            evidence: String::from("/Help/m"),
            scope: String::from("a"),
        },
    ];
    let done = apply_findings(document, &findings).ok().unwrap();
    assert_eq!(
        done.document,
        "<h1>{{t 'welcome'}}</h1>\n<p>{{t 'sign_in'}}</p>\n<p>{{t 'sign_in'}}</p>\n<a>{{t 'help'}}</a>\n"
    );
    assert!(done.unmatched.is_empty());
    let table = build_mapping(&findings);
    assert_eq!(
        table.to_json().ok().unwrap(),
        "{\n  \"helpm\": \"Help/m\",\n  \"sign_in\": \"Sign in\",\n  \"welcome\": \"Welcome\"\n}"
    );
    assert_eq!(mapping_file_name("index", "es"), "index.es.json");
    assert_eq!(slugify(&normalize_for_matching("/Sign in/")), "sign_in");
    assert_eq!(slugify(&normalize_for_key("/Sign in/")), "sign_in");
}
