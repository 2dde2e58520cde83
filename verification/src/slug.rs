//! Slugs: the keys under which literal texts are stored.

use crate::text::chars_of;
use vstd::prelude::*;
use vstd::utf8::is_ascii_chars;

verus! {

/// The greatest number of characters that a slug has.
pub const SLUG_MAX: usize = 64;

/// The ASCII text that `unidecode::unidecode` puts in the place of the
/// character `c`.
pub uninterp spec fn transliterated_char(c: char) -> Seq<char>;

/// The transliteration of `text` into ASCII characters: what stands for
/// its characters, one after the other. A character of ASCII stands for
/// itself.
pub open spec fn transliterated(text: Seq<char>) -> Seq<char>
    decreases text.len(),
{
    if text.len() == 0 {
        text
    } else if text.last() <= '\u{7f}' {
        transliterated(text.drop_last()).push(text.last())
    } else {
        transliterated(text.drop_last()) + transliterated_char(text.last())
    }
}

/// Whether `c` may stand in a slug: a lower-case letter or a digit of the
/// base alphabet, or an underscore.
pub open spec fn is_slug_char(c: char) -> bool {
    ('a' <= c <= 'z') || ('0' <= c <= '9') || c == '_'
}

/// What a transliterated character becomes in a slug: a capital letter its
/// lower-case letter, a space an underscore; lower-case letters, digits and
/// the underscore stay, and every other character is dropped.
pub open spec fn slug_char(c: char) -> Option<char> {
    if 'A' <= c <= 'Z' {
        Some((c as u32 + 32) as char)
    } else if c == ' ' {
        Some('_')
    } else if is_slug_char(c) {
        Some(c)
    } else {
        None
    }
}

/// The characters of `text` as they stand in a slug, in order.
pub open spec fn cleaned(text: Seq<char>) -> Seq<char>
    decreases text.len(),
{
    if text.len() == 0 {
        text
    } else {
        match slug_char(text.last()) {
            Some(c) => cleaned(text.drop_last()).push(c),
            None => cleaned(text.drop_last()),
        }
    }
}

/// The first `SLUG_MAX` characters of `text`; all of it where it has no
/// more.
pub open spec fn truncated(text: Seq<char>) -> Seq<char> {
    if text.len() > SLUG_MAX {
        text.take(SLUG_MAX as int)
    } else {
        text
    }
}

/// The slug of a text that has been transliterated already.
pub open spec fn slug_of_transliterated(text: Seq<char>) -> Seq<char> {
    truncated(cleaned(text))
}

/// The characters of the transliteration of `text` as they stand in a
/// slug: the slug of `text` before it is cut.
pub open spec fn slug_chars(text: Seq<char>) -> Seq<char> {
    cleaned(transliterated(text))
}

/// The slug of `text`.
pub open spec fn slug_of(text: Seq<char>) -> Seq<char> {
    slug_of_transliterated(transliterated(text))
}

/// Whether `text` is a slug: at most `SLUG_MAX` characters, each a
/// lower-case letter, a digit or an underscore.
pub open spec fn is_slug(text: Seq<char>) -> bool {
    &&& text.len() <= SLUG_MAX
    &&& forall|i: int| 0 <= i < text.len() ==> is_slug_char(#[trigger] text[i])
}

/// The slug of `text`: its transliteration into the base alphabet, in
/// lower case, with underscores for spaces, without any other character
/// that is no letter or digit, cut after `SLUG_MAX` characters.
///
/// The result is always a slug. A text of ASCII characters is its own
/// transliteration, so its slug is made of its own characters. A text that
/// is a slug already is returned as it is: `slugify(slugify(x))` is
/// `slugify(x)`.
pub fn slugify(text: &str) -> (slug: String)
    ensures
        slug@ == slug_of(text@),
        is_slug(slug@),
        is_ascii_chars(text@) ==> slug@ == slug_of_transliterated(text@),
        is_slug(text@) ==> slug@ == text@,
{
    let plain = transliterate(text);
    proof {
        if is_ascii_chars(text@) {
            lemma_transliterated_ascii(text@);
        }
        lemma_slug_of_transliterated(text@);
    }
    slugify_transliterated(plain.as_str())
}

/// The slug of a text that has been transliterated already: its capital
/// letters in lower case, its spaces as underscores, without any character
/// that is no lower-case letter, digit or underscore of the base alphabet,
/// and cut after `SLUG_MAX` characters.
pub fn slugify_transliterated(text: &str) -> (slug: String)
    ensures
        slug@ == slug_of_transliterated(text@),
        is_slug(slug@),
{
    let chars = chars_of(text);
    let mut slug = String::new();
    let mut count: usize = 0;
    let mut i: usize = 0;
    while i < chars.len()
        invariant
            i <= chars.len(),
            count == slug@.len(),
            count <= SLUG_MAX,
            slug@ == truncated(cleaned(chars@.take(i as int))),
        decreases chars.len() - i,
    {
        assert(chars@.take(i + 1).drop_last() == chars@.take(i as int));
        match to_slug_char(chars[i]) {
            Some(c) => {
                if count < SLUG_MAX {
                    slug.push(c);
                    count += 1;
                }
            },
            None => {},
        }
        i += 1;
    }
    proof {
        assert(chars@.take(chars@.len() as int) == chars@);
        lemma_slug_of_transliterated(text@);
    }
    slug
}

/// What `c` becomes in a slug; `None` where it is dropped.
pub fn to_slug_char(c: char) -> (out: Option<char>)
    ensures
        out == slug_char(c),
{
    if 'A' <= c && c <= 'Z' {
        let code: u8 = c as u8;
        Some((code + 32) as char)
    } else if c == ' ' {
        Some('_')
    } else if ('a' <= c && c <= 'z') || ('0' <= c && c <= '9') || c == '_' {
        Some(c)
    } else {
        None
    }
}

/// What a character becomes in a slug may stand in a slug.
pub proof fn lemma_slug_char(c: char)
    ensures
        slug_char(c) matches Some(d) ==> is_slug_char(d),
        is_slug_char(c) ==> slug_char(c) == Some(c),
{
    if 'A' <= c <= 'Z' {
        assert(is_slug_char((c as u32 + 32) as char));
    }
}

/// Cleaning leaves only characters that may stand in a slug.
pub proof fn lemma_cleaned_chars(text: Seq<char>)
    ensures
        forall|i: int| 0 <= i < cleaned(text).len() ==> is_slug_char(#[trigger] cleaned(text)[i]),
    decreases text.len(),
{
    if text.len() > 0 {
        let before = cleaned(text.drop_last());
        lemma_cleaned_chars(text.drop_last());
        lemma_slug_char(text.last());
        assert forall|i: int| 0 <= i < cleaned(text).len() implies is_slug_char(
            #[trigger] cleaned(text)[i],
        ) by {
            if i < before.len() {
                assert(cleaned(text)[i] == before[i]);
            }
        }
    }
}

/// Cleaning changes nothing in a text whose characters may all stand in a
/// slug.
pub proof fn lemma_cleaned_fixed(text: Seq<char>)
    requires
        forall|i: int| 0 <= i < text.len() ==> is_slug_char(#[trigger] text[i]),
    ensures
        cleaned(text) == text,
    decreases text.len(),
{
    if text.len() > 0 {
        lemma_cleaned_fixed(text.drop_last());
        assert(text.drop_last().push(text.last()) == text);
    }
}

/// The slug of a transliterated text is a slug, and taking the slug of a
/// slug changes nothing.
pub proof fn lemma_slug_of_transliterated(text: Seq<char>)
    ensures
        is_slug(slug_of_transliterated(text)),
        is_slug(text) ==> slug_of_transliterated(text) == text,
        slug_of_transliterated(slug_of_transliterated(text)) == slug_of_transliterated(text),
{
    lemma_cleaned_chars(text);
    if is_slug(text) {
        lemma_cleaned_fixed(text);
    }
    lemma_cleaned_fixed(slug_of_transliterated(text));
}

/// A text of ASCII characters is its own transliteration.
pub proof fn lemma_transliterated_ascii(text: Seq<char>)
    requires
        is_ascii_chars(text),
    ensures
        transliterated(text) == text,
    decreases text.len(),
{
    if text.len() > 0 {
        lemma_transliterated_ascii(text.drop_last());
        assert(text.drop_last().push(text.last()) == text);
    }
}

/// The transliteration of a joined text is the joined transliterations.
pub proof fn lemma_transliterated_joined(first: Seq<char>, second: Seq<char>)
    ensures
        transliterated(first + second) == transliterated(first) + transliterated(second),
    decreases second.len(),
{
    if second.len() == 0 {
        assert(first + second == first);
    } else {
        lemma_transliterated_joined(first, second.drop_last());
        assert((first + second).drop_last() == first + second.drop_last());
    }
}

/// Cleaning a joined text is joining the cleaned texts.
pub proof fn lemma_cleaned_joined(first: Seq<char>, second: Seq<char>)
    ensures
        cleaned(first + second) == cleaned(first) + cleaned(second),
    decreases second.len(),
{
    if second.len() == 0 {
        assert(first + second == first);
    } else {
        lemma_cleaned_joined(first, second.drop_last());
        assert((first + second).drop_last() == first + second.drop_last());
    }
}

/// The slug of a joined text is made of the characters that each part
/// gives, those of the first part before those of the second, and then cut.
pub proof fn lemma_slug_joined(first: Seq<char>, second: Seq<char>)
    ensures
        slug_chars(first + second) == slug_chars(first) + slug_chars(second),
        slug_of(first + second) == truncated(slug_chars(first) + slug_chars(second)),
{
    lemma_transliterated_joined(first, second);
    lemma_cleaned_joined(transliterated(first), transliterated(second));
}

/// Calls `unidecode::unidecode`, which looks up each character in a table
/// of ASCII texts and joins what it finds. So the result for a text of one
/// character is what stands for that character, and the result for any
/// text is made of these, one after the other. The crate's documentation
/// guarantees that the result holds ASCII characters only and that every
/// ASCII character stands for itself.
#[verifier::external_body]
fn transliterate(text: &str) -> (out: String)
    ensures
        out@ == transliterated(text@),
        text@.len() == 1 ==> out@ == transliterated_char(text@[0]),
        is_ascii_chars(out@),
{
    unidecode::unidecode(text)
}

} // verus!
