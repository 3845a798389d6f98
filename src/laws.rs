//! What every slug satisfies, and the laws that relate calls of the engine.
use vstd::prelude::*;
use crate::engine::{
    cap, collapse_from, drop_trailing_mark, edge_char, mark, slug_from, stop_list, strip_words,
};
use crate::text::{
    ascii_lower, is_blank, is_slug_char, lower_char, occurs_in, replace_all, skip_back, skip_back_blank,
    skip_front, skip_front_blank, trim_blank, trim_char,
};

verus! {

/// Every character of `s` is a slug character or the first character of `sep`.
pub open spec fn only_slug_chars(s: Seq<char>, sep: Seq<char>) -> bool {
    forall|i: int| 0 <= i < s.len() ==> is_slug_char(#[trigger] s[i]) || (sep.len() > 0 && s[i] == sep[0])
}

/// `s` neither starts nor ends with `c`.
pub open spec fn marks_inside(s: Seq<char>, c: char) -> bool {
    s.len() > 0 ==> s[0] != c && s.last() != c
}

/// `s` never holds `c` twice in a row.
pub open spec fn no_doubled_mark(s: Seq<char>, c: char) -> bool {
    forall|i: int| 0 <= i && i + 1 < s.len() ==> !(#[trigger] s[i] == c && s[i + 1] == c)
}

/// `s` is a slug under the default options: slug characters and single
/// inner `-`.
pub open spec fn is_default_slug(s: Seq<char>) -> bool {
    only_slug_chars(s, seq!['-']) && marks_inside(s, '-') && no_doubled_mark(s, '-')
}

proof fn lemma_collapse_alphabet(s: Seq<char>, b: bool, m: Seq<char>)
    requires
        m.len() <= 1,
    ensures
        only_slug_chars(collapse_from(s, b, m), m),
    decreases s.len(),
{
    if s.len() > 0 {
        let o = collapse_from(s, b, m);
        if is_slug_char(s[0]) {
            lemma_collapse_alphabet(s.drop_first(), false, m);
            assert(forall|i: int| 0 < i < o.len() ==> o[i] == collapse_from(s.drop_first(), false, m)[i - 1]);
        } else if !b {
            lemma_collapse_alphabet(s.drop_first(), true, m);
            let o2 = collapse_from(s.drop_first(), true, m);
            assert(forall|i: int| m.len() <= i < o.len() ==> o[i] == o2[i - m.len()]);
        } else {
            lemma_collapse_alphabet(s.drop_first(), true, m);
        }
    }
}

proof fn lemma_collapse_marks(s: Seq<char>, b: bool, c: char)
    requires
        !is_slug_char(c),
    ensures
        b && collapse_from(s, b, seq![c]).len() > 0 ==> collapse_from(s, b, seq![c])[0] != c,
        no_doubled_mark(collapse_from(s, b, seq![c]), c),
    decreases s.len(),
{
    if s.len() > 0 {
        let m = seq![c];
        let o = collapse_from(s, b, m);
        if is_slug_char(s[0]) {
            let o2 = collapse_from(s.drop_first(), false, m);
            lemma_collapse_marks(s.drop_first(), false, c);
            assert(o == seq![s[0]] + o2);
            assert forall|i: int| 0 <= i && i + 1 < o.len() implies !(#[trigger] o[i] == c && o[i + 1] == c) by {
                if i > 0 {
                    assert(o[i] == o2[i - 1] && o[i + 1] == o2[i]);
                }
            }
        } else if !b {
            let o2 = collapse_from(s.drop_first(), true, m);
            lemma_collapse_marks(s.drop_first(), true, c);
            assert(o == m + o2);
            assert forall|i: int| 0 <= i && i + 1 < o.len() implies !(#[trigger] o[i] == c && o[i + 1] == c) by {
                if i > 0 {
                    assert(o[i] == o2[i - 1] && o[i + 1] == o2[i]);
                } else {
                    assert(o[1] == o2[0]);
                }
            }
        } else {
            lemma_collapse_marks(s.drop_first(), true, c);
        }
    }
}

proof fn lemma_skip_back_prefix(t: Seq<char>, c: char)
    ensures
        skip_back(t, c).len() <= t.len(),
        skip_back(t, c) == t.take(skip_back(t, c).len() as int),
        skip_back(t, c).len() > 0 ==> skip_back(t, c).last() != c,
    decreases t.len(),
{
    if t.len() > 0 && t.last() == c {
        lemma_skip_back_prefix(t.drop_last(), c);
        let k = skip_back(t, c).len() as int;
        assert(t.drop_last().take(k) == t.take(k));
    } else {
        assert(t.take(t.len() as int) == t);
    }
}

proof fn lemma_prefix_keeps(s: Seq<char>, k: int, sep: Seq<char>)
    requires
        0 <= k <= s.len(),
        only_slug_chars(s, sep),
    ensures
        only_slug_chars(s.take(k), sep),
        sep.len() > 0 && no_doubled_mark(s, sep[0]) ==> no_doubled_mark(s.take(k), sep[0]),
        k > 0 ==> s.take(k)[0] == s[0],
{
    let p = s.take(k);
    assert(forall|i: int| 0 <= i < k ==> p[i] == s[i]);
    if sep.len() > 0 && no_doubled_mark(s, sep[0]) {
        assert forall|i: int| 0 <= i && i + 1 < p.len() implies !(#[trigger] p[i] == sep[0] && p[i + 1] == sep[0]) by {
            assert(p[i] == s[i] && p[i + 1] == s[i + 1]);
        }
    }
}

/// Every slug is made of slug characters and the separator's first
/// character; when that character is not itself a slug character, it never
/// stands at either end nor twice in a row; and with a length cap the slug is
/// no longer than the cap.
pub proof fn lemma_slug_shape(
    t: Seq<char>,
    stop_words: Seq<char>,
    sep: Seq<char>,
    max_length: Option<usize>,
)
    ensures
        only_slug_chars(slug_from(t, stop_words, sep, max_length), sep),
        sep.len() > 0 && !is_slug_char(sep[0]) ==> marks_inside(
            slug_from(t, stop_words, sep, max_length),
            sep[0],
        ) && no_doubled_mark(slug_from(t, stop_words, sep, max_length), sep[0]),
        max_length matches Some(n) ==> slug_from(t, stop_words, sep, max_length).len() <= n,
{
    let m = mark(sep);
    let a = trim_char(trim_blank(ascii_lower(t)), edge_char(sep));
    let b = replace_all(a, seq![' '], sep);
    let c = strip_words(b, stop_list(stop_words), sep);
    let d0 = collapse_from(c, true, m);
    let d = drop_trailing_mark(d0, m);
    let r = cap(d, m, max_length);
    assert(r == slug_from(t, stop_words, sep, max_length));
    let sharp = sep.len() > 0 && !is_slug_char(sep[0]);
    lemma_collapse_alphabet(c, true, m);
    assert(only_slug_chars(d0, sep));
    if sharp {
        lemma_collapse_marks(c, true, sep[0]);
        assert(m == seq![sep[0]]);
    }
    // `d` is `d0` or `d0` without its last character.
    let kd: int = if d.len() < d0.len() { d0.len() - 1 } else { d0.len() as int };
    assert(d == d0.take(kd));
    lemma_prefix_keeps(d0, kd, sep);
    if sharp && d.len() > 0 {
        if d.len() < d0.len() {
            assert(d.last() == d0[d0.len() - 2]);
            assert(d0[d0.len() - 1] == sep[0]);
        }
    }
    match max_length {
        None => {},
        Some(n) => {
            let k: int = if n < d.len() { n as int } else { d.len() as int };
            let tk = d.take(k);
            assert(tk == (if n < d.len() { d.take(n as int) } else { d }));
            lemma_prefix_keeps(d, k, sep);
            if sep.len() > 0 {
                lemma_skip_back_prefix(tk, sep[0]);
                let j = r.len() as int;
                assert(r == tk.take(j));
                lemma_prefix_keeps(tk, j, sep);
            }
        },
    }
}

proof fn lemma_replace_absent(s: Seq<char>, p: Seq<char>, r: Seq<char>)
    requires
        p.len() == 1,
        forall|i: int| 0 <= i < s.len() ==> s[i] != p[0],
    ensures
        replace_all(s, p, r) == s,
    decreases s.len(),
{
    if s.len() > 0 {
        assert(s.subrange(0, 1)[0] == s[0]);
        lemma_replace_absent(s.drop_first(), p, r);
        assert(seq![s[0]] + s.drop_first() == s);
    }
}

proof fn lemma_collapse_keeps(s: Seq<char>, b: bool, c: char)
    requires
        !is_slug_char(c),
        only_slug_chars(s, seq![c]),
        no_doubled_mark(s, c),
        b && s.len() > 0 ==> s[0] != c,
    ensures
        collapse_from(s, b, seq![c]) == s,
    decreases s.len(),
{
    if s.len() > 0 {
        let rest = s.drop_first();
        assert(forall|i: int| 0 <= i < rest.len() ==> rest[i] == s[i + 1]);
        assert(only_slug_chars(rest, seq![c]));
        assert(no_doubled_mark(rest, c));
        if is_slug_char(s[0]) {
            lemma_collapse_keeps(rest, false, c);
        } else {
            assert(s[0] == c);
            if rest.len() > 0 {
                assert(!(s[0] == c && s[1] == c));
            }
            lemma_collapse_keeps(rest, true, c);
        }
        assert(seq![s[0]] + rest == s);
    }
}

/// A slug under the default options is ASCII, and the engine with the
/// default options (no stop words, `-` as separator, no length cap) returns
/// it unchanged.
pub proof fn lemma_default_slug_fixed(s: Seq<char>)
    requires
        is_default_slug(s),
    ensures
        crate::is_ascii_text(s),
        slug_from(s, Seq::<char>::empty(), seq!['-'], None) == s,
{
    let sep = seq!['-'];
    assert forall|i: int| 0 <= i < s.len() implies (s[i] as u32) < 128 by {
        assert(is_slug_char(s[i]) || s[i] == '-');
    }
    assert forall|i: int| 0 <= i < s.len() implies lower_char(s[i]) == s[i] by {
        assert(is_slug_char(s[i]) || s[i] == '-');
    }
    assert(ascii_lower(s) =~= s);
    if s.len() > 0 {
        assert(!is_blank(s[0]) && !is_blank(s.last()));
        assert(skip_front_blank(s) == s);
        assert(skip_back_blank(s) == s);
        assert(skip_front(s, '-') == s);
        assert(skip_back(s, '-') == s);
    }
    assert(trim_char(trim_blank(ascii_lower(s)), edge_char(sep)) == s);
    assert forall|i: int| 0 <= i < s.len() implies s[i] != seq![' '][0] by {
        assert(is_slug_char(s[i]) || s[i] == '-');
    }
    lemma_replace_absent(s, seq![' '], sep);
    let words = stop_list(Seq::<char>::empty());
    assert(words == seq![Seq::<char>::empty()]);
    assert(words.drop_last() =~= Seq::<Seq<char>>::empty());
    assert(strip_words(s, words.drop_last(), sep) == s);
    assert(replace_all(s, words.last(), sep) == s);
    assert(strip_words(s, words, sep) == s);
    lemma_collapse_keeps(s, true, '-');
    assert(mark(sep) == seq!['-']);
}

/// Slugifying a slug again with the default options changes nothing.
pub proof fn lemma_slug_idempotent(s: Seq<char>)
    ensures
        slug_from(slug_from(s, Seq::<char>::empty(), seq!['-'], None), Seq::<char>::empty(), seq!['-'], None)
            == slug_from(s, Seq::<char>::empty(), seq!['-'], None),
{
    let sep = seq!['-'];
    lemma_slug_shape(s, Seq::<char>::empty(), sep, None);
    lemma_default_slug_fixed(slug_from(s, Seq::<char>::empty(), sep, None));
}

/// Every character of `w` is a slug character.
pub open spec fn all_slug_chars(w: Seq<char>) -> bool {
    forall|i: int| 0 <= i < w.len() ==> is_slug_char(#[trigger] w[i])
}

/// No character of `r` is a slug character.
pub open spec fn no_slug_chars(r: Seq<char>) -> bool {
    forall|i: int| 0 <= i < r.len() ==> !is_slug_char(#[trigger] r[i])
}

proof fn lemma_absent_in_prefix(s: Seq<char>, k: int, w: Seq<char>)
    requires
        0 <= k <= s.len(),
        !occurs_in(s, w),
    ensures
        !occurs_in(s.take(k), w),
{
    if occurs_in(s.take(k), w) {
        let i = choose|i: int| 0 <= i && i + w.len() <= s.take(k).len() && #[trigger] s.take(k).subrange(i, i + w.len()) == w;
        assert(s.subrange(i, i + w.len()) == s.take(k).subrange(i, i + w.len()));
    }
}

proof fn lemma_absent_in_suffix(s: Seq<char>, k: int, w: Seq<char>)
    requires
        0 <= k <= s.len(),
        !occurs_in(s, w),
    ensures
        !occurs_in(s.subrange(k, s.len() as int), w),
{
    let t = s.subrange(k, s.len() as int);
    if occurs_in(t, w) {
        let i = choose|i: int| 0 <= i && i + w.len() <= t.len() && #[trigger] t.subrange(i, i + w.len()) == w;
        assert(s.subrange(i + k, i + k + w.len()) == t.subrange(i, i + w.len()));
    }
}

/// A block of slug characters at the front of a replacement's result stood
/// at the front of the text already.
proof fn lemma_replace_front(s: Seq<char>, p: Seq<char>, r: Seq<char>, u: Seq<char>)
    requires
        r.len() > 0,
        no_slug_chars(r),
        all_slug_chars(u),
        u.len() <= replace_all(s, p, r).len(),
        replace_all(s, p, r).take(u.len() as int) == u,
    ensures
        u.len() <= s.len(),
        s.take(u.len() as int) == u,
    decreases s.len(),
{
    let out = replace_all(s, p, r);
    if p.len() == 0 || s.len() < p.len() {
    } else if s.subrange(0, p.len() as int) == p {
        if u.len() > 0 {
            assert(out[0] == r[0]);
            assert(u[0] == out.take(u.len() as int)[0]);
        }
        assert(s.take(u.len() as int) =~= u);
    } else if u.len() > 0 {
        let rest = s.drop_first();
        let out2 = replace_all(rest, p, r);
        assert(out == seq![s[0]] + out2);
        let u2 = u.drop_first();
        assert(out2.take(u2.len() as int) =~= u2) by {
            assert forall|i: int| 0 <= i < u2.len() implies out2.take(u2.len() as int)[i] == u2[i] by {
                assert(out.take(u.len() as int)[i + 1] == u[i + 1]);
            }
        }
        lemma_replace_front(rest, p, r, u2);
        assert(u[0] == out.take(u.len() as int)[0]);
        assert(s.take(u.len() as int) =~= u) by {
            assert forall|i: int| 0 <= i < u.len() implies s.take(u.len() as int)[i] == u[i] by {
                if i > 0 {
                    assert(rest.take(u2.len() as int)[i - 1] == u2[i - 1]);
                }
            }
        }
    } else {
        assert(s.take(0) =~= u);
    }
}

/// After replacing every occurrence of a word of slug characters by a
/// non-empty text without slug characters, the word no longer occurs.
proof fn lemma_replace_removes(s: Seq<char>, p: Seq<char>, r: Seq<char>)
    requires
        p.len() > 0,
        all_slug_chars(p),
        r.len() > 0,
        no_slug_chars(r),
    ensures
        !occurs_in(replace_all(s, p, r), p),
    decreases s.len(),
{
    let out = replace_all(s, p, r);
    let k = p.len() as int;
    if s.len() < p.len() {
    } else if s.subrange(0, k) == p {
        let rest = s.subrange(k, s.len() as int);
        let out2 = replace_all(rest, p, r);
        lemma_replace_removes(rest, p, r);
        assert(out == r + out2);
        if occurs_in(out, p) {
            let i = choose|i: int| 0 <= i && i + k <= out.len() && #[trigger] out.subrange(i, i + k) == p;
            if i < r.len() {
                assert(out.subrange(i, i + k)[0] == r[i]);
            } else {
                assert(out2.subrange(i - r.len(), i - r.len() + k) == out.subrange(i, i + k));
            }
        }
    } else {
        let rest = s.drop_first();
        let out2 = replace_all(rest, p, r);
        lemma_replace_removes(rest, p, r);
        assert(out == seq![s[0]] + out2);
        if occurs_in(out, p) {
            let i = choose|i: int| 0 <= i && i + k <= out.len() && #[trigger] out.subrange(i, i + k) == p;
            if i == 0 {
                assert(out.take(k) == out.subrange(0, k));
                lemma_replace_front(s, p, r, p);
                assert(s.take(k) == s.subrange(0, k));
            } else {
                assert(out2.subrange(i - 1, i - 1 + k) == out.subrange(i, i + k));
            }
        }
    }
}

/// Replacing any pattern by a non-empty text without slug characters does
/// not create an occurrence of a word of slug characters.
proof fn lemma_replace_keeps_absent(s: Seq<char>, p: Seq<char>, r: Seq<char>, w: Seq<char>)
    requires
        w.len() > 0,
        all_slug_chars(w),
        r.len() > 0,
        no_slug_chars(r),
        !occurs_in(s, w),
    ensures
        !occurs_in(replace_all(s, p, r), w),
    decreases s.len(),
{
    let out = replace_all(s, p, r);
    let k = w.len() as int;
    if p.len() == 0 || s.len() < p.len() {
    } else if s.subrange(0, p.len() as int) == p {
        let rest = s.subrange(p.len() as int, s.len() as int);
        let out2 = replace_all(rest, p, r);
        lemma_absent_in_suffix(s, p.len() as int, w);
        lemma_replace_keeps_absent(rest, p, r, w);
        assert(out == r + out2);
        if occurs_in(out, w) {
            let i = choose|i: int| 0 <= i && i + k <= out.len() && #[trigger] out.subrange(i, i + k) == w;
            if i < r.len() {
                assert(out.subrange(i, i + k)[0] == r[i]);
            } else {
                assert(out2.subrange(i - r.len(), i - r.len() + k) == out.subrange(i, i + k));
            }
        }
    } else {
        let rest = s.drop_first();
        let out2 = replace_all(rest, p, r);
        lemma_absent_in_suffix(s, 1, w);
        lemma_replace_keeps_absent(rest, p, r, w);
        assert(out == seq![s[0]] + out2);
        if occurs_in(out, w) {
            let i = choose|i: int| 0 <= i && i + k <= out.len() && #[trigger] out.subrange(i, i + k) == w;
            if i == 0 {
                assert(out.take(k) == out.subrange(0, k));
                lemma_replace_front(s, p, r, w);
                assert(s.take(k) == s.subrange(0, k));
            } else {
                assert(out2.subrange(i - 1, i - 1 + k) == out.subrange(i, i + k));
            }
        }
    }
}

proof fn lemma_strip_removes(t: Seq<char>, words: Seq<Seq<char>>, sep: Seq<char>, w: Seq<char>)
    requires
        words.contains(w),
        w.len() > 0,
        all_slug_chars(w),
        sep.len() > 0,
        no_slug_chars(sep),
    ensures
        !occurs_in(strip_words(t, words, sep), w),
    decreases words.len(),
{
    let prev = strip_words(t, words.drop_last(), sep);
    if words.last() == w {
        lemma_replace_removes(prev, w, sep);
    } else {
        let j = choose|j: int| 0 <= j < words.len() && words[j] == w;
        assert(words.drop_last()[j] == w);
        lemma_strip_removes(t, words.drop_last(), sep, w);
        lemma_replace_keeps_absent(prev, words.last(), sep, w);
    }
}

/// A block of slug characters at the front of a collapse that starts after
/// a slug character stood at the front of its input already.
proof fn lemma_collapse_front(s: Seq<char>, m: Seq<char>, u: Seq<char>)
    requires
        m.len() == 1,
        !is_slug_char(m[0]),
        all_slug_chars(u),
        u.len() <= collapse_from(s, false, m).len(),
        collapse_from(s, false, m).take(u.len() as int) == u,
    ensures
        u.len() <= s.len(),
        s.take(u.len() as int) == u,
    decreases s.len(),
{
    let out = collapse_from(s, false, m);
    if u.len() == 0 {
        assert(s.take(0) =~= u);
    } else if s.len() == 0 {
    } else if is_slug_char(s[0]) {
        let rest = s.drop_first();
        let out2 = collapse_from(rest, false, m);
        assert(out == seq![s[0]] + out2);
        let u2 = u.drop_first();
        assert(out2.take(u2.len() as int) =~= u2) by {
            assert forall|i: int| 0 <= i < u2.len() implies out2.take(u2.len() as int)[i] == u2[i] by {
                assert(out.take(u.len() as int)[i + 1] == u[i + 1]);
            }
        }
        lemma_collapse_front(rest, m, u2);
        assert(u[0] == out.take(u.len() as int)[0]);
        assert(s.take(u.len() as int) =~= u) by {
            assert forall|i: int| 0 <= i < u.len() implies s.take(u.len() as int)[i] == u[i] by {
                if i > 0 {
                    assert(rest.take(u2.len() as int)[i - 1] == u2[i - 1]);
                }
            }
        }
    } else {
        assert(out[0] == m[0]);
        assert(u[0] == out.take(u.len() as int)[0]);
    }
}

proof fn lemma_collapse_keeps_absent(s: Seq<char>, b: bool, m: Seq<char>, w: Seq<char>)
    requires
        m.len() == 1,
        !is_slug_char(m[0]),
        w.len() > 0,
        all_slug_chars(w),
        !occurs_in(s, w),
    ensures
        !occurs_in(collapse_from(s, b, m), w),
    decreases s.len(),
{
    let out = collapse_from(s, b, m);
    let k = w.len() as int;
    if s.len() > 0 {
        let rest = s.drop_first();
        lemma_absent_in_suffix(s, 1, w);
        assert(rest == s.subrange(1, s.len() as int));
        if is_slug_char(s[0]) {
            let out2 = collapse_from(rest, false, m);
            lemma_collapse_keeps_absent(rest, false, m, w);
            assert(out == seq![s[0]] + out2);
            if occurs_in(out, w) {
                let i = choose|i: int| 0 <= i && i + k <= out.len() && #[trigger] out.subrange(i, i + k) == w;
                if i == 0 {
                    let w2 = w.drop_first();
                    assert(out2.take(w2.len() as int) =~= w2) by {
                        assert forall|j: int| 0 <= j < w2.len() implies out2.take(w2.len() as int)[j] == w2[j] by {
                            assert(out.subrange(0, k)[j + 1] == w[j + 1]);
                        }
                    }
                    lemma_collapse_front(rest, m, w2);
                    assert(s.subrange(0, k) =~= w) by {
                        assert(out.subrange(0, k)[0] == w[0]);
                        assert forall|j: int| 0 <= j < k implies s.subrange(0, k)[j] == w[j] by {
                            if j > 0 {
                                assert(rest.take(w2.len() as int)[j - 1] == w2[j - 1]);
                            }
                        }
                    }
                } else {
                    assert(out2.subrange(i - 1, i - 1 + k) == out.subrange(i, i + k));
                }
            }
        } else if !b {
            let out2 = collapse_from(rest, true, m);
            lemma_collapse_keeps_absent(rest, true, m, w);
            assert(out == m + out2);
            if occurs_in(out, w) {
                let i = choose|i: int| 0 <= i && i + k <= out.len() && #[trigger] out.subrange(i, i + k) == w;
                if i == 0 {
                    assert(out.subrange(0, k)[0] == m[0]);
                } else {
                    assert(out2.subrange(i - 1, i - 1 + k) == out.subrange(i, i + k));
                }
            }
        } else {
            lemma_collapse_keeps_absent(rest, true, m, w);
        }
    }
}

/// A listed stop word made of slug characters never occurs in the slug,
/// provided the separator is non-empty and holds no slug character.
pub proof fn lemma_stop_word_gone(
    t: Seq<char>,
    stop_words: Seq<char>,
    sep: Seq<char>,
    max_length: Option<usize>,
    w: Seq<char>,
)
    requires
        stop_list(stop_words).contains(w),
        w.len() > 0,
        all_slug_chars(w),
        sep.len() > 0,
        no_slug_chars(sep),
    ensures
        !occurs_in(slug_from(t, stop_words, sep, max_length), w),
{
    let m = mark(sep);
    let a = trim_char(trim_blank(ascii_lower(t)), edge_char(sep));
    let b = replace_all(a, seq![' '], sep);
    let c = strip_words(b, stop_list(stop_words), sep);
    let d0 = collapse_from(c, true, m);
    let d = drop_trailing_mark(d0, m);
    lemma_strip_removes(b, stop_list(stop_words), sep, w);
    assert(!is_slug_char(sep[0]));
    lemma_collapse_keeps_absent(c, true, m, w);
    let kd: int = if d.len() < d0.len() { d0.len() - 1 } else { d0.len() as int };
    assert(d == d0.take(kd));
    lemma_absent_in_prefix(d0, kd, w);
    match max_length {
        None => {},
        Some(n) => {
            let k: int = if n < d.len() { n as int } else { d.len() as int };
            let tk = d.take(k);
            assert(tk == (if n < d.len() { d.take(n as int) } else { d }));
            lemma_absent_in_prefix(d, k, w);
            lemma_skip_back_prefix(tk, sep[0]);
            lemma_absent_in_prefix(tk, skip_back(tk, sep[0]).len() as int, w);
        },
    }
}

} // verus!
