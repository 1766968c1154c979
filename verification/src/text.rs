//! Character-level text primitives shared by the parsers: Unicode
//! whitespace trimming, ASCII case-insensitive search, HTML tag stripping
//! and whitespace collapsing, and conversions between `str` and `Vec<char>`.
use vstd::prelude::*;

verus! {

/// The Unicode `White_Space` property, which `char::is_whitespace` tests.
pub open spec fn is_ws(c: char) -> bool {
    ||| ('\u{9}' <= c && c <= '\u{d}')
    ||| c == ' '
    ||| c == '\u{85}'
    ||| c == '\u{a0}'
    ||| c == '\u{1680}'
    ||| ('\u{2000}' <= c && c <= '\u{200a}')
    ||| c == '\u{2028}'
    ||| c == '\u{2029}'
    ||| c == '\u{202f}'
    ||| c == '\u{205f}'
    ||| c == '\u{3000}'
}

/// Whether `c` is Unicode whitespace.
pub fn is_whitespace(c: char) -> (r: bool)
    ensures
        r == is_ws(c),
{
    ('\u{9}' <= c && c <= '\u{d}') || c == ' ' || c == '\u{85}' || c == '\u{a0}' || c
        == '\u{1680}' || ('\u{2000}' <= c && c <= '\u{200a}') || c == '\u{2028}' || c
        == '\u{2029}' || c == '\u{202f}' || c == '\u{205f}' || c == '\u{3000}'
}

/// `s` without its leading whitespace.
pub open spec fn trim_start(s: Seq<char>) -> Seq<char>
    decreases s.len(),
{
    if s.len() > 0 && is_ws(s[0]) {
        trim_start(s.drop_first())
    } else {
        s
    }
}

/// `s` without its trailing whitespace.
pub open spec fn trim_end(s: Seq<char>) -> Seq<char>
    decreases s.len(),
{
    if s.len() > 0 && is_ws(s.last()) {
        trim_end(s.drop_last())
    } else {
        s
    }
}

/// `s` without leading and trailing whitespace.
pub open spec fn trim(s: Seq<char>) -> Seq<char> {
    trim_end(trim_start(s))
}

/// `s` without its leading byte-order marks.
pub open spec fn trim_start_bom(s: Seq<char>) -> Seq<char>
    decreases s.len(),
{
    if s.len() > 0 && s[0] == '\u{feff}' {
        trim_start_bom(s.drop_first())
    } else {
        s
    }
}

/// `s` without its trailing dots and commas.
pub open spec fn trim_end_punct(s: Seq<char>) -> Seq<char>
    decreases s.len(),
{
    if s.len() > 0 && (s.last() == '.' || s.last() == ',') {
        trim_end_punct(s.drop_last())
    } else {
        s
    }
}

/// The code of `c` after ASCII lowercasing.
pub open spec fn ascii_lower(c: char) -> int {
    if 'A' <= c && c <= 'Z' {
        c as int + 32
    } else {
        c as int
    }
}

/// `n` occurs at position `i` of `h`, ignoring ASCII case.
pub open spec fn matches_at(h: Seq<char>, i: int, n: Seq<char>) -> bool {
    &&& 0 <= i
    &&& i + n.len() <= h.len()
    &&& forall|j: int| 0 <= j < n.len() ==> #[trigger] ascii_lower(h[i + j]) == ascii_lower(n[j])
}

/// The first position at or after `i` where `n` occurs in `h`, ignoring ASCII case.
pub open spec fn find_from(h: Seq<char>, n: Seq<char>, i: int) -> Option<int>
    decreases h.len() - i,
{
    if i < 0 || i + n.len() > h.len() {
        None
    } else if matches_at(h, i, n) {
        Some(i)
    } else {
        find_from(h, n, i + 1)
    }
}

/// The first position where `n` occurs in `h`, ignoring ASCII case.
pub open spec fn find_ci(h: Seq<char>, n: Seq<char>) -> Option<int> {
    find_from(h, n, 0)
}

/// A position found by `find_from` is a match, and no earlier one is.
pub proof fn lemma_find_from(h: Seq<char>, n: Seq<char>, i: int)
    requires
        0 <= i,
    ensures
        find_from(h, n, i) matches Some(k) ==> i <= k && k + n.len() <= h.len() && matches_at(
            h,
            k,
            n,
        ) && forall|j: int| i <= j < k ==> !matches_at(h, j, n),
        find_from(h, n, i) is None ==> forall|j: int| i <= j ==> !matches_at(h, j, n),
    decreases h.len() - i,
{
    if i + n.len() > h.len() {
    } else if matches_at(h, i, n) {
    } else {
        lemma_find_from(h, n, i + 1);
    }
}

/// Tag stripping as a left fold: the text kept so far and whether a tag is open.
pub open spec fn strip_state(s: Seq<char>) -> (Seq<char>, bool)
    decreases s.len(),
{
    if s.len() == 0 {
        (Seq::empty(), false)
    } else {
        let (out, in_tag) = strip_state(s.drop_last());
        let c = s.last();
        if c == '<' {
            (out, true)
        } else if c == '>' {
            (out, false)
        } else if !in_tag {
            (out.push(c), false)
        } else {
            (out, true)
        }
    }
}

/// Whitespace collapsing as a left fold: the text so far and whether a
/// separating space is due before the next word.
pub open spec fn collapse_state(s: Seq<char>) -> (Seq<char>, bool)
    decreases s.len(),
{
    if s.len() == 0 {
        (Seq::empty(), false)
    } else {
        let (out, pending) = collapse_state(s.drop_last());
        let c = s.last();
        if is_ws(c) {
            (out, out.len() > 0)
        } else if pending {
            (out.push(' ').push(c), false)
        } else {
            (out.push(c), false)
        }
    }
}

/// The words of `s` (split at whitespace) joined by single spaces.
pub open spec fn collapse_ws(s: Seq<char>) -> Seq<char> {
    collapse_state(s).0
}

/// `s` with everything from a `<` up to the next `>` removed and its words
/// joined by single spaces.
pub open spec fn strip_html_spec(s: Seq<char>) -> Seq<char> {
    collapse_ws(strip_state(s).0)
}

/// The Unicode lowercase form of a text, as `str::to_lowercase` computes it.
pub uninterp spec fn unicode_lowercase(s: Seq<char>) -> Seq<char>;

/// The ASCII lowercase form of a character; other characters unchanged.
pub open spec fn ascii_lowercase_char(c: char) -> char {
    if 'A' <= c && c <= 'Z' {
        ((c as u32) + 32) as char
    } else {
        c
    }
}

/// `str::to_lowercase`: the text with every character mapped to its
/// Unicode lowercase form. On ASCII text that form is ASCII lowercasing,
/// as Unicode's lowercase mapping gives it for these characters.
#[verifier::external_body]
pub(crate) fn to_lowercase(s: &str) -> (r: String)
    ensures
        r@ == unicode_lowercase(s@),
        (forall|i: int| 0 <= i < s@.len() ==> (s@[i] as u32) < 128) ==> r@ == Seq::new(
            s@.len(),
            |i: int| ascii_lowercase_char(s@[i]),
        ),
{
    s.to_lowercase()
}

/// The characters of `s`.
pub fn chars_of(s: &str) -> (v: Vec<char>)
    ensures
        v@ == s@,
{
    let mut v: Vec<char> = Vec::new();
    for c in it: s.chars()
        invariant
            v@ == it.seq().take(it.index() as int),
    {
        v.push(c);
    }
    v
}

/// Appends one character (`String::push`).
#[verifier::external_body]
fn push_char(s: &mut String, c: char)
    ensures
        final(s)@ == old(s)@.push(c),
{
    s.push(c);
}

/// The string made of the characters of `v`.
pub fn string_of(v: &Vec<char>) -> (s: String)
    ensures
        s@ == v@,
{
    let mut s = String::new();
    for i in 0..v.len()
        invariant
            s@ == v@.take(i as int),
    {
        assert(v@.take(i + 1) == v@.take(i as int).push(v@[i as int]));
        push_char(&mut s, v[i]);
    }
    assert(v@.take(v.len() as int) == v@);
    s
}

/// The characters of `v` from `a` up to `b`.
pub fn slice_of(v: &Vec<char>, a: usize, b: usize) -> (r: Vec<char>)
    requires
        a <= b <= v.len(),
    ensures
        r@ == v@.subrange(a as int, b as int),
{
    let mut r: Vec<char> = Vec::new();
    let mut i: usize = a;
    while i < b
        invariant
            a <= i <= b <= v.len(),
            r@ == v@.subrange(a as int, i as int),
        decreases b - i,
    {
        r.push(v[i]);
        assert(v@.subrange(a as int, i + 1) == v@.subrange(a as int, i as int).push(v@[i as int]));
        i += 1;
    }
    r
}

/// The first index at or after `lo` whose character is not whitespace.
fn skip_ws(v: &Vec<char>, lo: usize) -> (a: usize)
    requires
        lo <= v.len(),
    ensures
        lo <= a <= v.len(),
        v@.subrange(a as int, v.len() as int) == trim_start(v@.subrange(lo as int, v.len() as int)),
{
    let mut i: usize = lo;
    while i < v.len() && is_whitespace(v[i])
        invariant
            lo <= i <= v.len(),
            trim_start(v@.subrange(i as int, v.len() as int)) == trim_start(
                v@.subrange(lo as int, v.len() as int),
            ),
        decreases v.len() - i,
    {
        assert(v@.subrange(i as int, v.len() as int).drop_first() == v@.subrange(
            i + 1,
            v.len() as int,
        ));
        i += 1;
    }
    i
}

/// The characters of `v` without leading whitespace.
pub fn trim_start_vec(v: &Vec<char>) -> (r: Vec<char>)
    ensures
        r@ == trim_start(v@),
{
    let a: usize = skip_ws(v, 0);
    assert(v@.subrange(0, v.len() as int) == v@);
    slice_of(v, a, v.len())
}

/// The characters of `v` without trailing whitespace.
pub fn trim_end_vec(v: &Vec<char>) -> (r: Vec<char>)
    ensures
        r@ == trim_end(v@),
{
    let mut b: usize = v.len();
    assert(v@.subrange(0, v.len() as int) == v@);
    while b > 0 && is_whitespace(v[b - 1])
        invariant
            b <= v.len(),
            trim_end(v@.subrange(0, b as int)) == trim_end(v@),
        decreases b,
    {
        assert(v@.subrange(0, b as int).drop_last() == v@.subrange(0, b - 1));
        b -= 1;
    }
    assert(v@.subrange(0, v.len() as int) == v@);
    slice_of(v, 0, b)
}

/// The characters of `v` without leading and trailing whitespace.
pub fn trim_vec(v: &Vec<char>) -> (r: Vec<char>)
    ensures
        r@ == trim(v@),
{
    let s = trim_start_vec(v);
    trim_end_vec(&s)
}

/// The characters of `v` without leading byte-order marks.
pub fn trim_start_bom_vec(v: &Vec<char>) -> (r: Vec<char>)
    ensures
        r@ == trim_start_bom(v@),
{
    let mut i: usize = 0;
    assert(v@.subrange(0, v.len() as int) == v@);
    while i < v.len() && v[i] == '\u{feff}'
        invariant
            i <= v.len(),
            trim_start_bom(v@.subrange(i as int, v.len() as int)) == trim_start_bom(v@),
        decreases v.len() - i,
    {
        assert(v@.subrange(i as int, v.len() as int).drop_first() == v@.subrange(
            i + 1,
            v.len() as int,
        ));
        i += 1;
    }
    assert(v@.subrange(0, v.len() as int) == v@);
    slice_of(v, i, v.len())
}

/// The characters of `v` without trailing dots and commas.
pub fn trim_end_punct_vec(v: &Vec<char>) -> (r: Vec<char>)
    ensures
        r@ == trim_end_punct(v@),
{
    let mut b: usize = v.len();
    assert(v@.subrange(0, v.len() as int) == v@);
    while b > 0 && (v[b - 1] == '.' || v[b - 1] == ',')
        invariant
            b <= v.len(),
            trim_end_punct(v@.subrange(0, b as int)) == trim_end_punct(v@),
        decreases b,
    {
        assert(v@.subrange(0, b as int).drop_last() == v@.subrange(0, b - 1));
        b -= 1;
    }
    assert(v@.subrange(0, v.len() as int) == v@);
    slice_of(v, 0, b)
}

/// The code of `c` after ASCII lowercasing.
fn lower_code(c: char) -> (r: u32)
    ensures
        r == ascii_lower(c),
{
    if 'A' <= c && c <= 'Z' {
        (c as u32) + 32
    } else {
        c as u32
    }
}

/// The first position where `n` occurs in `h`, ignoring ASCII case.
pub fn find_ignore_ascii(h: &Vec<char>, n: &Vec<char>) -> (r: Option<usize>)
    ensures
        r matches Some(i) ==> find_ci(h@, n@) == Some(i as int) && i + n.len() <= h.len(),
        r is None ==> find_ci(h@, n@) is None,
{
    if n.len() > h.len() {
        return None;
    }
    let mut i: usize = 0;
    while i <= h.len() - n.len()
        invariant
            n.len() <= h.len(),
            i <= h.len() - n.len() + 1,
            find_from(h@, n@, 0) == find_from(h@, n@, i as int),
        decreases h.len() - n.len() + 1 - i,
    {
        let mut j: usize = 0;
        let mut ok = true;
        while j < n.len()
            invariant
                i + n.len() <= h.len(),
                j <= n.len(),
                ok <==> forall|k: int| 0 <= k < j ==> ascii_lower(h@[i + k]) == ascii_lower(n@[k]),
            decreases n.len() - j,
        {
            if lower_code(h[i + j]) != lower_code(n[j]) {
                ok = false;
            }
            j += 1;
        }
        if ok {
            assert(matches_at(h@, i as int, n@));
            return Some(i);
        }
        assert(!matches_at(h@, i as int, n@)) by {
            let k = choose|k: int| 0 <= k < n.len() && ascii_lower(h@[i + k]) != ascii_lower(n@[k]);
            assert(ascii_lower(h@[i + k]) != ascii_lower(n@[k]));
        }
        i += 1;
    }
    None
}

/// Whether `n` occurs in `h`, ignoring ASCII case.
pub fn contains_ignore_ascii(h: &Vec<char>, n: &Vec<char>) -> (r: bool)
    ensures
        r == (find_ci(h@, n@) is Some),
{
    find_ignore_ascii(h, n).is_some()
}

/// `strip_state` of the text in `v`, written out.
fn strip_tags(v: &Vec<char>) -> (r: Vec<char>)
    ensures
        r@ == strip_state(v@).0,
{
    let mut out: Vec<char> = Vec::new();
    let mut in_tag = false;
    for i in 0..v.len()
        invariant
            (out@, in_tag) == strip_state(v@.take(i as int)),
    {
        assert(v@.take(i + 1).drop_last() == v@.take(i as int));
        let c = v[i];
        if c == '<' {
            in_tag = true;
        } else if c == '>' {
            in_tag = false;
        } else if !in_tag {
            out.push(c);
        }
    }
    assert(v@.take(v.len() as int) == v@);
    out
}

/// The words of the text in `v` joined by single spaces.
fn collapse_whitespace(v: &Vec<char>) -> (r: Vec<char>)
    ensures
        r@ == collapse_ws(v@),
{
    let mut out: Vec<char> = Vec::new();
    let mut pending = false;
    for i in 0..v.len()
        invariant
            (out@, pending) == collapse_state(v@.take(i as int)),
    {
        assert(v@.take(i + 1).drop_last() == v@.take(i as int));
        let c = v[i];
        if is_whitespace(c) {
            pending = out.len() > 0;
        } else {
            if pending {
                out.push(' ');
            }
            out.push(c);
            pending = false;
        }
    }
    assert(v@.take(v.len() as int) == v@);
    out
}

/// The text of `v` with HTML tags removed and whitespace collapsed.
pub fn strip_html(v: &Vec<char>) -> (r: Vec<char>)
    ensures
        r@ == strip_html_spec(v@),
{
    let t = strip_tags(v);
    collapse_whitespace(&t)
}

/// A text that neither starts nor ends with whitespace is its own trim.
pub proof fn lemma_trim_keeps(s: Seq<char>)
    requires
        s.len() > 0,
        !is_ws(s[0]),
        !is_ws(s.last()),
    ensures
        trim_start(s) == s,
        trim_end(s) == s,
        trim(s) == s,
{
}

/// Whitespace in front of a text that starts with none is trimmed away.
pub proof fn lemma_trim_start_after_ws(w: Seq<char>, n: Seq<char>)
    requires
        forall|i: int| 0 <= i < w.len() ==> is_ws(#[trigger] w[i]),
        n.len() > 0,
        !is_ws(n[0]),
    ensures
        trim_start(w + n) == trim_start(n),
        trim_start(n) == n,
    decreases w.len(),
{
    let x = w + n;
    if w.len() == 0 {
        assert(x =~= n);
    } else {
        assert(x[0] == w[0]);
        assert(x.drop_first() =~= w.drop_first() + n);
        assert forall|i: int| 0 <= i < w.drop_first().len() implies is_ws(
            #[trigger] w.drop_first()[i],
        ) by {
            assert(w.drop_first()[i] == w[i + 1]);
        }
        lemma_trim_start_after_ws(w.drop_first(), n);
    }
}

} // verus!
