//! Character-sequence operations used by the slug engine, each with a
//! mathematical model over `Seq<char>`.
use vstd::prelude::*;

verus! {

/// Lowercase ASCII letters and ASCII digits: the characters a slug keeps.
pub open spec fn is_slug_char(c: char) -> bool {
    ('a' <= c && c <= 'z') || ('0' <= c && c <= '9')
}

/// Whitespace as `str::trim` counts it among ASCII characters
/// (tab, line feed, vertical tab, form feed, carriage return, space).
pub open spec fn is_blank(c: char) -> bool {
    ('\t' <= c && c <= '\r') || c == ' '
}

/// ASCII lowercasing of one character; every other character is kept.
pub open spec fn lower_char(c: char) -> char {
    if 'A' <= c && c <= 'Z' {
        (((c as u8) + 32) as u8) as char
    } else {
        c
    }
}

/// ASCII lowercasing of a whole text. On ASCII text it agrees with
/// `str::to_lowercase`.
pub open spec fn ascii_lower(s: Seq<char>) -> Seq<char> {
    s.map_values(|c: char| lower_char(c))
}

/// `s` with every leading blank removed.
pub open spec fn skip_front_blank(s: Seq<char>) -> Seq<char>
    decreases s.len(),
{
    if s.len() > 0 && is_blank(s[0]) {
        skip_front_blank(s.drop_first())
    } else {
        s
    }
}

/// `s` with every trailing blank removed.
pub open spec fn skip_back_blank(s: Seq<char>) -> Seq<char>
    decreases s.len(),
{
    if s.len() > 0 && is_blank(s.last()) {
        skip_back_blank(s.drop_last())
    } else {
        s
    }
}

/// `s` with leading and trailing blanks removed.
pub open spec fn trim_blank(s: Seq<char>) -> Seq<char> {
    skip_back_blank(skip_front_blank(s))
}

/// `s` with every leading `c` removed.
pub open spec fn skip_front(s: Seq<char>, c: char) -> Seq<char>
    decreases s.len(),
{
    if s.len() > 0 && s[0] == c {
        skip_front(s.drop_first(), c)
    } else {
        s
    }
}

/// `s` with every trailing `c` removed.
pub open spec fn skip_back(s: Seq<char>, c: char) -> Seq<char>
    decreases s.len(),
{
    if s.len() > 0 && s.last() == c {
        skip_back(s.drop_last(), c)
    } else {
        s
    }
}

/// `s` with leading and trailing occurrences of `c` removed.
pub open spec fn trim_char(s: Seq<char>, c: char) -> Seq<char> {
    skip_back(skip_front(s, c), c)
}

/// Every non-overlapping occurrence of `p` in `s`, found from left to right,
/// replaced by `r`. An empty pattern leaves `s` as it is.
pub open spec fn replace_all(s: Seq<char>, p: Seq<char>, r: Seq<char>) -> Seq<char>
    decreases s.len(),
{
    if p.len() == 0 || s.len() < p.len() {
        s
    } else if s.subrange(0, p.len() as int) == p {
        r + replace_all(s.subrange(p.len() as int, s.len() as int), p, r)
    } else {
        seq![s[0]] + replace_all(s.drop_first(), p, r)
    }
}

/// `w` occurs in `s` as a contiguous block.
pub open spec fn occurs_in(s: Seq<char>, w: Seq<char>) -> bool {
    exists|i: int| 0 <= i && i + w.len() <= s.len() && #[trigger] s.subrange(i, i + w.len()) == w
}

/// Relies on `String`'s `FromIterator<char>`: the string holds the characters
/// in the order given.
#[verifier::external_body]
pub(crate) fn string_of(v: Vec<char>) -> (r: String)
    ensures
        r@ == v@,
{
    v.into_iter().collect()
}

/// The characters of `s`, in order.
pub fn chars_of(s: &str) -> (r: Vec<char>)
    ensures
        r@ == s@,
{
    let mut r: Vec<char> = Vec::new();
    for c in it: s.chars()
        invariant
            it.seq() == s@,
            r@ == it.seq().take(it.index() as int),
    {
        r.push(c);
    }
    r
}

/// ASCII lowercasing of `v`.
pub fn lower_ascii(v: &Vec<char>) -> (r: Vec<char>)
    ensures
        r@ == ascii_lower(v@),
{
    let mut r: Vec<char> = Vec::new();
    let mut i: usize = 0;
    while i < v.len()
        invariant
            i <= v.len(),
            r@ == ascii_lower(v@.take(i as int)),
        decreases v.len() - i,
    {
        let c = v[i];
        let d = if 'A' <= c && c <= 'Z' {
            ((c as u8) + 32) as char
        } else {
            c
        };
        r.push(d);
        i = i + 1;
        assert(v@.take(i as int) == v@.take(i - 1).push(c));
    }
    assert(v@.take(i as int) == v@);
    r
}

/// The characters of `v` from `lo` up to `hi`.
fn slice_of(v: &Vec<char>, lo: usize, hi: usize) -> (r: Vec<char>)
    requires
        lo <= hi <= v.len(),
    ensures
        r@ == v@.subrange(lo as int, hi as int),
{
    let mut r: Vec<char> = Vec::new();
    let mut i: usize = lo;
    while i < hi
        invariant
            lo <= i <= hi <= v.len(),
            r@ == v@.subrange(lo as int, i as int),
        decreases hi - i,
    {
        r.push(v[i]);
        i = i + 1;
        assert(v@.subrange(lo as int, i as int) == v@.subrange(lo as int, i - 1).push(v@[i - 1]));
    }
    r
}

/// `v` with leading and trailing blanks removed.
pub fn trim_blanks(v: &Vec<char>) -> (r: Vec<char>)
    ensures
        r@ == trim_blank(v@),
{
    let n = v.len();
    let mut lo: usize = 0;
    assert(v@.subrange(0, n as int) == v@);
    while lo < n && (('\t' <= v[lo] && v[lo] <= '\r') || v[lo] == ' ')
        invariant
            lo <= n == v.len(),
            skip_front_blank(v@) == skip_front_blank(v@.subrange(lo as int, n as int)),
        decreases n - lo,
    {
        assert(v@.subrange(lo as int, n as int).drop_first() == v@.subrange(lo + 1, n as int));
        lo = lo + 1;
    }
    let mut hi: usize = n;
    assert(skip_front_blank(v@) == v@.subrange(lo as int, n as int));
    while hi > lo && (('\t' <= v[hi - 1] && v[hi - 1] <= '\r') || v[hi - 1] == ' ')
        invariant
            lo <= hi <= n == v.len(),
            trim_blank(v@) == skip_back_blank(v@.subrange(lo as int, hi as int)),
        decreases hi,
    {
        assert(v@.subrange(lo as int, hi as int).drop_last() == v@.subrange(lo as int, hi - 1));
        hi = hi - 1;
    }
    slice_of(v, lo, hi)
}

/// `v` with leading and trailing occurrences of `c` removed.
pub fn trim_matching(v: &Vec<char>, c: char) -> (r: Vec<char>)
    ensures
        r@ == trim_char(v@, c),
{
    let n = v.len();
    let mut lo: usize = 0;
    assert(v@.subrange(0, n as int) == v@);
    while lo < n && v[lo] == c
        invariant
            lo <= n == v.len(),
            skip_front(v@, c) == skip_front(v@.subrange(lo as int, n as int), c),
        decreases n - lo,
    {
        assert(v@.subrange(lo as int, n as int).drop_first() == v@.subrange(lo + 1, n as int));
        lo = lo + 1;
    }
    assert(skip_front(v@, c) == v@.subrange(lo as int, n as int));
    let w = slice_of(v, lo, n);
    trim_back_matching(&w, c)
}

/// `v` with trailing occurrences of `c` removed.
pub fn trim_back_matching(v: &Vec<char>, c: char) -> (r: Vec<char>)
    ensures
        r@ == skip_back(v@, c),
{
    let n = v.len();
    let mut hi: usize = n;
    assert(v@.subrange(0, n as int) == v@);
    while hi > 0 && v[hi - 1] == c
        invariant
            hi <= n == v.len(),
            skip_back(v@, c) == skip_back(v@.subrange(0, hi as int), c),
        decreases hi,
    {
        assert(v@.subrange(0, hi as int).drop_last() == v@.subrange(0, hi - 1));
        hi = hi - 1;
    }
    slice_of(v, 0, hi)
}

/// Whether `p` occurs in `s` at position `i`.
fn occurs_at(s: &Vec<char>, i: usize, p: &Vec<char>) -> (b: bool)
    requires
        i + p.len() <= s.len(),
    ensures
        b == (s@.subrange(i as int, i + p.len()) == p@),
{
    let mut k: usize = 0;
    while k < p.len()
        invariant
            k <= p.len(),
            i + p.len() <= s.len(),
            forall|j: int| 0 <= j < k ==> s@[i + j] == p@[j],
        decreases p.len() - k,
    {
        if s[i + k] != p[k] {
            assert(s@.subrange(i as int, i + p.len())[k as int] != p@[k as int]);
            return false;
        }
        k = k + 1;
    }
    assert(s@.subrange(i as int, i + p.len()) == p@);
    true
}

/// Every non-overlapping occurrence of `p` in `s`, from left to right,
/// replaced by `r`.
pub fn replace_every(s: &Vec<char>, p: &Vec<char>, r: &Vec<char>) -> (out: Vec<char>)
    ensures
        out@ == replace_all(s@, p@, r@),
{
    let n = s.len();
    let k = p.len();
    let mut out: Vec<char> = Vec::new();
    if k == 0 {
        assert(s@.subrange(0, n as int) == s@);
        return slice_of(s, 0, n);
    }
    let mut i: usize = 0;
    assert(s@.subrange(0, n as int) == s@);
    while i < n
        invariant
            i <= n == s.len(),
            k == p.len() > 0,
            out@ + replace_all(s@.subrange(i as int, n as int), p@, r@) == replace_all(s@, p@, r@),
        decreases n - i,
    {
        let ghost rest = s@.subrange(i as int, n as int);
        if k <= n - i && occurs_at(s, i, p) {
            assert(rest.subrange(0, k as int) == s@.subrange(i as int, i + k));
            assert(rest.subrange(k as int, rest.len() as int) == s@.subrange(i + k, n as int));
            let mut j: usize = 0;
            let ghost before = out@;
            while j < r.len()
                invariant
                    j <= r.len(),
                    out@ == before + r@.take(j as int),
                decreases r.len() - j,
            {
                out.push(r[j]);
                j = j + 1;
                assert(r@.take(j as int) == r@.take(j - 1).push(r@[j - 1]));
            }
            assert(r@.take(j as int) == r@);
            assert(out@ + replace_all(s@.subrange(i + k, n as int), p@, r@) == before + replace_all(rest, p@, r@));
            i = i + k;
        } else {
            if k <= n - i {
                assert(rest.subrange(0, k as int) == s@.subrange(i as int, i + k));
            } else {
                assert(seq![rest[0]] + rest.drop_first() == rest);
            }
            assert(rest.drop_first() == s@.subrange(i + 1, n as int));
            let ghost before = out@;
            out.push(s[i]);
            assert(out@ == before + seq![rest[0]]);
            i = i + 1;
        }
    }
    assert(s@.subrange(n as int, n as int).len() == 0);
    assert(out@ + replace_all(s@.subrange(n as int, n as int), p@, r@) == out@);
    out
}

} // verus!
