//! Named options for a slug call, with the usual defaults: no stop words,
//! `-` as separator, no length cap.
use vstd::prelude::*;
use crate::{slug_of, slugify};

verus! {

/// The options of a slug call.
pub struct SlugOptions {
    /// Comma-separated words to remove.
    pub stop_words: String,
    /// The separator; its first character joins the words.
    pub separator: String,
    /// The longest slug allowed, if any.
    pub max_length: Option<usize>,
}

impl Default for SlugOptions {
    fn default() -> (r: Self)
        ensures
            r.stop_words@ == Seq::<char>::empty(),
            r.separator@ == seq!['-'],
            r.max_length is None,
    {
        let stop_words = String::new();
        let separator = String::from_str("-");
        proof {
            reveal_strlit("-");
        }
        SlugOptions { stop_words, separator, max_length: None }
    }
}

impl SlugOptions {
    /// The same options with `words` as the stop words.
    pub fn stop_words(self, words: &str) -> (r: Self)
        ensures
            r.stop_words@ == words@,
            r.separator@ == self.separator@,
            r.max_length == self.max_length,
    {
        SlugOptions { stop_words: String::from_str(words), ..self }
    }

    /// The same options with `sep` as the separator.
    pub fn separator(self, sep: &str) -> (r: Self)
        ensures
            r.stop_words@ == self.stop_words@,
            r.separator@ == sep@,
            r.max_length == self.max_length,
    {
        SlugOptions { separator: String::from_str(sep), ..self }
    }

    /// The same options with a length cap of `n`.
    pub fn max_length(self, n: usize) -> (r: Self)
        ensures
            r.stop_words@ == self.stop_words@,
            r.separator@ == self.separator@,
            r.max_length == Some(n),
    {
        SlugOptions { max_length: Some(n), ..self }
    }
}

/// The slug of `text` under `options`.
pub fn slugify_with(text: &str, options: &SlugOptions) -> (r: String)
    ensures
        r@ == slug_of(text@, options.stop_words@, options.separator@, options.max_length),
{
    slugify(text, options.stop_words.as_str(), options.separator.as_str(), options.max_length)
}

} // verus!
