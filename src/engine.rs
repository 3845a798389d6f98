//! The slug engine: from transliterated text to the final slug, in the fixed
//! order lowercase, trim, join words, remove stop words, filter and collapse,
//! drop a trailing separator, truncate.
use vstd::prelude::*;
use crate::text::{
    ascii_lower, is_slug_char, lower_ascii, replace_all, replace_every, skip_back, trim_back_matching,
    trim_blank, trim_blanks, trim_char, trim_matching,
};

verus! {

/// The comma-separated pieces of `w`, empty ones included, in order.
pub open spec fn stop_list(w: Seq<char>) -> Seq<Seq<char>>
    decreases w.len(),
{
    if w.len() == 0 {
        seq![Seq::<char>::empty()]
    } else {
        let p = stop_list(w.drop_last());
        if w.last() == ',' {
            p.push(Seq::<char>::empty())
        } else {
            p.update(p.len() - 1, p.last().push(w.last()))
        }
    }
}

/// `t` after replacing every occurrence of each word of `words` by `sep`,
/// one word after the other in list order. Empty words change nothing.
pub open spec fn strip_words(t: Seq<char>, words: Seq<Seq<char>>, sep: Seq<char>) -> Seq<char>
    decreases words.len(),
{
    if words.len() == 0 {
        t
    } else {
        replace_all(strip_words(t, words.drop_last(), sep), words.last(), sep)
    }
}

/// The separator's first character as a sequence of length one, or the empty
/// sequence when the separator is empty.
pub open spec fn mark(sep: Seq<char>) -> Seq<char> {
    if sep.len() == 0 {
        Seq::<char>::empty()
    } else {
        seq![sep[0]]
    }
}

/// The character trimmed from both ends of the lowercased text: the
/// separator's first character, or a space when the separator is empty.
pub open spec fn edge_char(sep: Seq<char>) -> char {
    if sep.len() == 0 {
        ' '
    } else {
        sep[0]
    }
}

/// Slug characters are copied; every run of other characters becomes one
/// `m`, except a run at the start (or right after an earlier run, when
/// `at_boundary` holds), which leaves nothing.
pub open spec fn collapse_from(s: Seq<char>, at_boundary: bool, m: Seq<char>) -> Seq<char>
    decreases s.len(),
{
    if s.len() == 0 {
        Seq::<char>::empty()
    } else if is_slug_char(s[0]) {
        seq![s[0]] + collapse_from(s.drop_first(), false, m)
    } else if !at_boundary {
        m + collapse_from(s.drop_first(), true, m)
    } else {
        collapse_from(s.drop_first(), true, m)
    }
}

/// `o` without its last character when that is the mark.
pub open spec fn drop_trailing_mark(o: Seq<char>, m: Seq<char>) -> Seq<char> {
    if m.len() > 0 && o.len() > 0 && o.last() == m[0] {
        o.drop_last()
    } else {
        o
    }
}

/// The length cap: at most `max_length` characters, then no mark at the end.
pub open spec fn cap(o: Seq<char>, m: Seq<char>, max_length: Option<usize>) -> Seq<char> {
    match max_length {
        None => o,
        Some(n) => {
            let t = if n < o.len() { o.take(n as int) } else { o };
            if m.len() > 0 {
                skip_back(t, m[0])
            } else {
                t
            }
        },
    }
}

/// The slug of an already transliterated text `t`.
pub open spec fn slug_from(
    t: Seq<char>,
    stop_words: Seq<char>,
    sep: Seq<char>,
    max_length: Option<usize>,
) -> Seq<char> {
    let m = mark(sep);
    let a = trim_char(trim_blank(ascii_lower(t)), edge_char(sep));
    let b = replace_all(a, seq![' '], sep);
    let c = strip_words(b, stop_list(stop_words), sep);
    let d = drop_trailing_mark(collapse_from(c, true, m), m);
    cap(d, m, max_length)
}

/// Replaces, for each comma-separated non-empty word of `stop_words` in
/// order, every occurrence of it in `t` by `sep`.
pub fn remove_stop_words(t: Vec<char>, stop_words: &Vec<char>, sep: &Vec<char>) -> (r: Vec<char>)
    ensures
        r@ == strip_words(t@, stop_list(stop_words@), sep@),
{
    let mut text = t;
    let mut cur: Vec<char> = Vec::new();
    let ghost done: Seq<Seq<char>> = Seq::empty();
    let mut i: usize = 0;
    while i < stop_words.len()
        invariant
            i <= stop_words.len(),
            stop_list(stop_words@.take(i as int)) == done.push(cur@),
            text@ == strip_words(t@, done, sep@),
        decreases stop_words.len() - i,
    {
        let c = stop_words[i];
        assert(stop_words@.take(i + 1).drop_last() == stop_words@.take(i as int));
        let ghost before = done.push(cur@);
        if c == ',' {
            if cur.len() > 0 {
                text = replace_every(&text, &cur, sep);
            }
            proof {
                assert(done.push(cur@).drop_last() == done);
                done = done.push(cur@);
            }
            cur = Vec::new();
            assert(before.push(Seq::<char>::empty()) == done.push(cur@));
        } else {
            cur.push(c);
            assert(before.update(before.len() - 1, before.last().push(c)) == done.push(cur@));
        }
        i = i + 1;
    }
    assert(stop_words@.take(i as int) == stop_words@);
    if cur.len() > 0 {
        text = replace_every(&text, &cur, sep);
    }
    assert(done.push(cur@).drop_last() == done);
    text
}

/// Copies slug characters and turns each run of other characters into one
/// `head` character (none for a leading run, and none when `head` is
/// absent).
pub fn collapse(s: &Vec<char>, head: Option<char>) -> (r: Vec<char>)
    ensures
        r@ == collapse_from(
            s@,
            true,
            match head {
                Some(c) => seq![c],
                None => Seq::<char>::empty(),
            },
        ),
{
    let ghost m = match head {
        Some(c) => seq![c],
        None => Seq::<char>::empty(),
    };
    let n = s.len();
    let mut r: Vec<char> = Vec::new();
    let mut at_boundary = true;
    let mut i: usize = 0;
    assert(s@.subrange(0, n as int) == s@);
    while i < n
        invariant
            i <= n == s.len(),
            m == match head {
                Some(c) => seq![c],
                None => Seq::<char>::empty(),
            },
            r@ + collapse_from(s@.subrange(i as int, n as int), at_boundary, m)
                == collapse_from(s@, true, m),
        decreases n - i,
    {
        let ghost rest = s@.subrange(i as int, n as int);
        let ghost before = r@;
        assert(rest.drop_first() == s@.subrange(i + 1, n as int));
        let c = s[i];
        if ('a' <= c && c <= 'z') || ('0' <= c && c <= '9') {
            r.push(c);
            at_boundary = false;
            assert(r@ == before + seq![c]);
        } else if !at_boundary {
            match head {
                Some(x) => {
                    r.push(x);
                    assert(r@ =~= before + m);
                },
                None => {
                    assert(r@ =~= before + m);
                },
            }
            at_boundary = true;
        } else {
        }
        i = i + 1;
    }
    assert(collapse_from(s@.subrange(n as int, n as int), at_boundary, m).len() == 0);
    assert(r@ + collapse_from(s@.subrange(n as int, n as int), at_boundary, m) == r@);
    r
}

/// The slug of `t`, which the caller has already transliterated.
pub fn slug_chars(
    t: &Vec<char>,
    stop_words: &Vec<char>,
    sep: &Vec<char>,
    max_length: Option<usize>,
) -> (r: Vec<char>)
    ensures
        r@ == slug_from(t@, stop_words@, sep@, max_length),
{
    let head: Option<char> = if sep.len() > 0 {
        Some(sep[0])
    } else {
        None
    };
    let ghost m = mark(sep@);
    let edge = match head {
        Some(c) => c,
        None => ' ',
    };
    let lowered = lower_ascii(t);
    let trimmed = trim_matching(&trim_blanks(&lowered), edge);
    let space = vec![' '];
    let joined = replace_every(&trimmed, &space, sep);
    let stripped = remove_stop_words(joined, stop_words, sep);
    assert(edge == edge_char(sep@));
    assert(space@ == seq![' ']);
    assert(joined@ == replace_all(trim_char(trim_blank(ascii_lower(t@)), edge_char(sep@)), seq![' '], sep@));
    let mut slug = collapse(&stripped, head);
    assert(slug@ == collapse_from(stripped@, true, m));
    match head {
        Some(c) => {
            if slug.len() > 0 && slug[slug.len() - 1] == c {
                slug.pop();
            }
        },
        None => {},
    }
    let ghost d = slug@;
    assert(d == drop_trailing_mark(collapse_from(stripped@, true, m), m));
    assert(slug_from(t@, stop_words@, sep@, max_length) == cap(d, m, max_length));
    match max_length {
        Some(n) => {
            if n < slug.len() {
                slug.truncate(n);
                assert(slug@ == d.take(n as int));
            }
            match head {
                Some(c) => trim_back_matching(&slug, c),
                None => slug,
            }
        },
        None => slug,
    }
}

} // verus!
