use replacehcstrings::slug::{slugify, slugify_transliterated, to_slug_char, SLUG_MAX};

fn corpus() -> Vec<String> {
    let mut texts: Vec<String> = vec![
        "",
        " ",
        "Hello, world!",
        "hello_world",
        "Plain text",
        "Éte à Paris",
        "Æneid",
        "北亰",
        "げんまい茶",
        "İstanbul ΣΑΣ ß",
        "tab\there\nnew line",
        "UPPER lower 0123456789 _-+=",
        "a\u{0}b\u{7f}c",
        "😀 smile",
        "ﬁ ligature ǅ",
        "__already__clean__",
    ]
    .into_iter()
    .map(String::from)
    .collect();
    texts.push("a".repeat(200));
    texts.push("北".repeat(40));
    texts.push("Ab ".repeat(30));
    texts
}

fn plain_pipeline(text: &str) -> String {
    let mut slug = unidecode::unidecode(text)
        .to_lowercase()
        .replace(" ", "_")
        .chars()
        .filter(|c| c.is_alphanumeric() || *c == '_')
        .collect::<String>();
    if slug.len() > 64 {
        slug.truncate(64);
    }
    slug
}

#[test]
fn slug_of_a_sentence() {
    assert_eq!(slugify("Hello, world!"), "hello_world");
    assert_eq!(slugify("Plain text"), "plain_text");
    assert_eq!(slugify("  two  spaces "), "__two__spaces_");
}

#[test]
fn slug_transliterates_before_it_cleans() {
    assert_eq!(slugify("Éte à Paris"), "ete_a_paris");
    assert_eq!(slugify("Æneid"), "aeneid");
    assert_eq!(slugify("北亰"), "bei_jing_");
}

#[test]
fn slug_drops_what_is_no_letter_digit_or_underscore() {
    assert_eq!(slugify("a-b+c=d/e\\f(g)h.i,j;k:l'm\"n"), "abcdefghijklmn");
    assert_eq!(slugify("tab\there\nnew"), "tabherenew");
    assert_eq!(slugify("x_y_9"), "x_y_9");
    assert_eq!(slugify("😀"), "");
    assert_eq!(slugify(""), "");
}

#[test]
fn slug_is_cut_after_sixty_four_characters() {
    assert_eq!(SLUG_MAX, 64);
    assert_eq!(slugify(&"a".repeat(64)), "a".repeat(64));
    assert_eq!(slugify(&"a".repeat(65)), "a".repeat(64));
    assert_eq!(slugify(&"a".repeat(200)), "a".repeat(64));
    let long = "北".repeat(40);
    let slug = slugify(&long);
    assert_eq!(slug.chars().count(), 64);
    assert_eq!(slug, "bei_".repeat(16));
    let dropped = format!("{}{}", "!".repeat(100), "b".repeat(70));
    assert_eq!(slugify(&dropped), "b".repeat(64));
}

#[test]
fn slug_is_a_slug_for_every_text() {
    for text in corpus() {
        let slug = slugify(&text);
        assert!(slug.chars().count() <= 64, "{:?}", text);
        assert!(
            slug.chars().all(|c| c.is_ascii_lowercase() || c.is_ascii_digit() || c == '_'),
            "{:?} gave {:?}",
            text,
            slug
        );
    }
}

#[test]
fn slug_of_a_slug_is_the_slug() {
    for text in corpus() {
        let once = slugify(&text);
        let twice = slugify(&once);
        assert_eq!(once, twice, "{:?}", text);
    }
}

#[test]
fn slug_is_the_same_for_the_same_text() {
    for text in corpus() {
        assert_eq!(slugify(&text), slugify(&text));
    }
}

#[test]
fn slug_is_what_the_plain_pipeline_gives() {
    for text in corpus() {
        assert_eq!(slugify(&text), plain_pipeline(&text), "{:?}", text);
    }
}

#[test]
fn slug_of_transliterated_text_drops_what_is_outside_the_base_alphabet() {
    assert_eq!(slugify_transliterated("Hello, world!"), "hello_world");
    assert_eq!(slugify_transliterated("été"), "t");
    assert_eq!(slugify_transliterated("AZ az 09"), "az_az_09");
}

#[test]
fn slug_character_by_character() {
    assert_eq!(to_slug_char('A'), Some('a'));
    assert_eq!(to_slug_char('Z'), Some('z'));
    assert_eq!(to_slug_char('q'), Some('q'));
    assert_eq!(to_slug_char('7'), Some('7'));
    assert_eq!(to_slug_char(' '), Some('_'));
    assert_eq!(to_slug_char('_'), Some('_'));
    assert_eq!(to_slug_char('@'), None);
    assert_eq!(to_slug_char('['), None);
    assert_eq!(to_slug_char('`'), None);
    assert_eq!(to_slug_char('{'), None);
    assert_eq!(to_slug_char('/'), None);
    assert_eq!(to_slug_char(':'), None);
    assert_eq!(to_slug_char('é'), None);
}

#[test]
fn slug_of_ascii_text_is_made_of_its_own_characters() {
    assert_eq!(slugify("Hi, you!"), "hi_you");
    for text in corpus() {
        if text.is_ascii() {
            assert_eq!(slugify(&text), slugify_transliterated(&text), "{:?}", text);
        }
    }
}

#[test]
fn slug_of_a_joined_text_joins_what_the_parts_give() {
    let parts = ["Éte ", "à", " Paris", "北", "", "(x)", "_9"];
    for first in parts {
        for second in parts {
            let joined = format!("{}{}", first, second);
            assert_eq!(
                slugify(&joined),
                format!("{}{}", slugify(first), slugify(second)),
                "{:?}",
                joined
            );
        }
    }
    let long = format!("{}{}", "a".repeat(60), "北亰");
    assert_eq!(slugify(&long), format!("{}bei_", "a".repeat(60)));
}
