use replacehcstrings::text::{nth_line, replace_all};

fn texts() -> Vec<&'static str> {
    vec![
        "",
        "a",
        "\n",
        "\r\n",
        "\r",
        "a\n",
        "a\nb",
        "a\nb\n",
        "a\n\nb",
        "a\r\nb\r\n",
        "a\rb\n",
        "a\r",
        "a\r\r\n",
        "\n\n\n",
        "<p>Hello</p>\n<p>Hello</p>\n",
        "été\nnaïve\n北亰",
        "aaa",
        "aaaa",
        "abcabcabc",
        "banana\na",
    ]
}

#[test]
fn replace_every_occurrence() {
    assert_eq!(replace_all("a-b-c", "-", "+"), "a+b+c");
    assert_eq!(replace_all("abcabc", "bc", ""), "aa");
    assert_eq!(replace_all("abc", "x", "y"), "abc");
    assert_eq!(replace_all("abc", "abc", "abc"), "abc");
    assert_eq!(replace_all("", "a", "b"), "");
}

#[test]
fn replace_goes_on_behind_an_occurrence() {
    assert_eq!(replace_all("aaa", "aa", "b"), "ba");
    assert_eq!(replace_all("aaaa", "aa", "b"), "bb");
    assert_eq!(replace_all("aaa", "a", "aa"), "aaaaaa");
    assert_eq!(replace_all("ababa", "aba", "x"), "xba");
}

#[test]
fn replace_an_empty_text() {
    assert_eq!(replace_all("abc", "", "-"), "-a-b-c-");
    assert_eq!(replace_all("", "", "-"), "-");
    assert_eq!(replace_all("é", "", "x"), "xéx");
    assert_eq!(replace_all("abc", "", ""), "abc");
}

#[test]
fn replace_is_what_the_standard_library_does() {
    let parts = ["", "a", "aa", "b", "\n", "a\n", "Hello", "<p>Hello</p>", "é", "abc", "bca"];
    for text in texts() {
        for from in parts {
            for to in ["", "x", "aa", "{{t 'k'}}", "a"] {
                assert_eq!(
                    replace_all(text, from, to),
                    text.replace(from, to),
                    "{:?} {:?} {:?}",
                    text,
                    from,
                    to
                );
            }
        }
    }
}

#[test]
fn lines_by_index() {
    assert_eq!(nth_line("a\nb\nc", 0).unwrap(), "a");
    assert_eq!(nth_line("a\nb\nc", 1).unwrap(), "b");
    assert_eq!(nth_line("a\nb\nc", 2).unwrap(), "c");
    assert!(nth_line("a\nb\nc", 3).is_none());
    assert!(nth_line("a\nb\nc", usize::MAX).is_none());
}

#[test]
fn line_endings_do_not_belong_to_the_line() {
    assert_eq!(nth_line("a\r\nb\r\n", 0).unwrap(), "a");
    assert_eq!(nth_line("a\r\nb\r\n", 1).unwrap(), "b");
    assert!(nth_line("a\r\nb\r\n", 2).is_none());
    assert_eq!(nth_line("a\r\r\n", 0).unwrap(), "a\r");
    assert_eq!(nth_line("a\rb\n", 0).unwrap(), "a\rb");
    assert_eq!(nth_line("a\r", 0).unwrap(), "a\r");
}

#[test]
fn a_last_line_ending_opens_no_line() {
    assert!(nth_line("", 0).is_none());
    assert_eq!(nth_line("\n", 0).unwrap(), "");
    assert!(nth_line("\n", 1).is_none());
    assert_eq!(nth_line("a\n\nb", 1).unwrap(), "");
    assert_eq!(nth_line("a\n", 0).unwrap(), "a");
    assert!(nth_line("a\n", 1).is_none());
}

#[test]
fn lines_are_what_the_standard_library_gives() {
    for text in texts() {
        let expected: Vec<&str> = text.lines().collect();
        for n in 0..expected.len() + 2 {
            let line = nth_line(text, n);
            match expected.get(n) {
                Some(want) => assert_eq!(line.unwrap(), *want, "{:?} line {}", text, n),
                None => assert!(line.is_none(), "{:?} line {}", text, n),
            }
        }
    }
}
