//! Slug generation: turns arbitrary text into a lowercase, URL-safe string of
//! ASCII letters and digits joined by a single separator, with stop-word
//! removal and an optional length cap.
use vstd::prelude::*;

pub mod engine;
pub mod laws;
pub mod options;
pub mod text;

use crate::engine::{slug_chars, slug_from};
use crate::laws::{is_default_slug, lemma_default_slug_fixed, lemma_slug_shape, marks_inside, no_doubled_mark, only_slug_chars};
use crate::text::{chars_of, string_of};

verus! {

/// What `unidecode::unidecode` returns for a text: its ASCII transliteration.
pub uninterp spec fn unidecode_of(s: Seq<char>) -> Seq<char>;

/// Every character is ASCII.
pub open spec fn is_ascii_text(s: Seq<char>) -> bool {
    forall|i: int| 0 <= i < s.len() ==> (s[i] as u32) < 128
}

/// Relies on `unidecode::unidecode`: the transliteration depends on the text
/// alone, and each ASCII character is mapped to itself, so ASCII text comes
/// back unchanged.
#[verifier::external_body]
fn transliterate(s: &str) -> (r: String)
    ensures
        r@ == unidecode_of(s@),
        is_ascii_text(s@) ==> r@ == s@,
{
    unidecode::unidecode(s)
}

/// The slug of `text`: its transliteration run through the slug engine.
pub open spec fn slug_of(
    text: Seq<char>,
    stop_words: Seq<char>,
    sep: Seq<char>,
    max_length: Option<usize>,
) -> Seq<char> {
    slug_from(unidecode_of(text), stop_words, sep, max_length)
}

/// The slug of `text`, which has already been transliterated to ASCII (or is
/// taken as it stands): lowercased, trimmed, words joined by `sep`, the
/// comma-separated `stop_words` removed, every run of other characters
/// collapsed to the first character of `sep`, and cut to `max_length`.
pub fn slugify_transliterated(
    text: &str,
    stop_words: &str,
    sep: &str,
    max_length: Option<usize>,
) -> (r: String)
    ensures
        r@ == slug_from(text@, stop_words@, sep@, max_length),
        only_slug_chars(r@, sep@),
        sep@.len() > 0 && !crate::text::is_slug_char(sep@[0]) ==> marks_inside(r@, sep@[0])
            && no_doubled_mark(r@, sep@[0]),
        max_length matches Some(n) ==> r@.len() <= n,
{
    let t = chars_of(text);
    let w = chars_of(stop_words);
    let s = chars_of(sep);
    let v = slug_chars(&t, &w, &s, max_length);
    proof {
        lemma_slug_shape(text@, stop_words@, sep@, max_length);
    }
    string_of(v)
}

/// The slug of `string`: transliterated to ASCII, then as
/// `slugify_transliterated` describes. A text that already is a slug under
/// the default options (no stop words, `-` as separator, no length cap) is
/// returned unchanged.
pub fn slugify(string: &str, stop_words: &str, sep: &str, max_length: Option<usize>) -> (r: String)
    ensures
        r@ == slug_of(string@, stop_words@, sep@, max_length),
        only_slug_chars(r@, sep@),
        sep@.len() > 0 && !crate::text::is_slug_char(sep@[0]) ==> marks_inside(r@, sep@[0])
            && no_doubled_mark(r@, sep@[0]),
        max_length matches Some(n) ==> r@.len() <= n,
        stop_words@.len() == 0 && sep@ == seq!['-'] && max_length is None && is_default_slug(
            string@,
        ) ==> r@ == string@,
{
    let t = transliterate(string);
    proof {
        if is_default_slug(string@) {
            lemma_default_slug_fixed(string@);
        }
        if stop_words@.len() == 0 {
            assert(stop_words@ =~= Seq::<char>::empty());
        }
    }
    slugify_transliterated(t.as_str(), stop_words, sep, max_length)
}

} // verus!
