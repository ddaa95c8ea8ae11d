//! The Unicode facts that the text functions rest on: grapheme segmentation,
//! case mapping and character classes, each named after the function that computes it.

use unicode_segmentation::UnicodeSegmentation;
use vstd::prelude::*;

verus! {

/// The extended grapheme clusters of a string, in order, as
/// `UnicodeSegmentation::graphemes(s, true)` yields them.
pub uninterp spec fn spec_graphemes(s: Seq<char>) -> Seq<Seq<char>>;

/// The result of `str::to_uppercase`.
pub uninterp spec fn spec_to_uppercase(s: Seq<char>) -> Seq<char>;

/// The result of `str::to_lowercase`.
pub uninterp spec fn spec_to_lowercase(s: Seq<char>) -> Seq<char>;

/// The result of `char::is_numeric`.
pub uninterp spec fn spec_char_is_numeric(c: char) -> bool;

/// The result of `char::is_alphabetic`.
pub uninterp spec fn spec_char_is_alphabetic(c: char) -> bool;

/// The result of `char::is_alphanumeric`.
pub uninterp spec fn spec_char_is_alphanumeric(c: char) -> bool;

/// A character with the Unicode `White_Space` property, which `char::is_whitespace` tests:
/// U+0009 to U+000D, U+0020, U+0085, U+00A0, U+1680, U+2000 to U+200A, U+2028, U+2029,
/// U+202F, U+205F and U+3000.
pub open spec fn is_white_space(c: char) -> bool {
    ||| ('\u{9}' <= c && c <= '\u{d}')
    ||| c == ' '
    ||| c == '\u{85}'
    ||| c == '\u{a0}'
    ||| c == '\u{1680}'
    ||| ('\u{2000}' <= c && c <= '\u{200a}')
    ||| c == '\u{2028}'
    ||| c == '\u{2029}'
    ||| c == '\u{202f}'
    ||| c == '\u{205f}'
    ||| c == '\u{3000}'
}

/// `s` without its leading whitespace characters.
pub open spec fn trim_start_ws(s: Seq<char>) -> Seq<char>
    decreases s.len(),
{
    if s.len() > 0 && is_white_space(s[0]) {
        trim_start_ws(s.drop_first())
    } else {
        s
    }
}

/// `s` without its trailing whitespace characters.
pub open spec fn trim_end_ws(s: Seq<char>) -> Seq<char>
    decreases s.len(),
{
    if s.len() > 0 && is_white_space(s.last()) {
        trim_end_ws(s.drop_last())
    } else {
        s
    }
}

/// `s` without leading and trailing whitespace characters, as `str::trim` gives it.
pub open spec fn spec_str_trim(s: Seq<char>) -> Seq<char> {
    trim_end_ws(trim_start_ws(s))
}

/// The character sequences of a vector of strings.
pub open spec fn strings_view(v: Seq<String>) -> Seq<Seq<char>> {
    v.map_values(|g: String| g@)
}

/// `g` splits `s` into non-empty pieces that, concatenated in order, give back `s`.
pub open spec fn segments_of(g: Seq<Seq<char>>, s: Seq<char>) -> bool {
    &&& g.flatten() == s
    &&& forall|i: int| 0 <= i < g.len() ==> (#[trigger] g[i]).len() > 0
}

/// The grapheme clusters of `s` are a segmentation of `s`.
pub open spec fn seg_facts(s: Seq<char>) -> bool {
    segments_of(spec_graphemes(s), s)
}

/// The number of grapheme clusters of `s`.
pub open spec fn glen(s: Seq<char>) -> int {
    spec_graphemes(s).len() as int
}

/// Calls `UnicodeSegmentation::graphemes(s, true)` and copies each cluster into a `String`.
/// Trusted: the clusters are the named segmentation of `s`; each is non-empty, and in order
/// they concatenate to `s` (the iterator hands out consecutive slices `s[start..next]`,
/// `next > start`, from the start of `s` to its end).
#[verifier::external_body]
pub(crate) fn graphemes_of(s: &str) -> (r: Vec<String>)
    ensures
        strings_view(r@) == spec_graphemes(s@),
        strings_view(r@).flatten() == s@,
        forall|i: int| 0 <= i < r@.len() ==> (#[trigger] r@[i])@.len() > 0,
{
    s.graphemes(true).map(|g| g.to_string()).collect()
}

/// Calls `str::to_uppercase`. Trusted: the result is the named upper-case mapping of `s`.
#[verifier::external_body]
pub(crate) fn to_uppercase(s: &str) -> (r: String)
    ensures
        r@ == spec_to_uppercase(s@),
{
    s.to_uppercase()
}

/// Calls `str::to_lowercase`. Trusted: the result is the named lower-case mapping of `s`.
#[verifier::external_body]
pub(crate) fn to_lowercase(s: &str) -> (r: String)
    ensures
        r@ == spec_to_lowercase(s@),
{
    s.to_lowercase()
}

/// Calls `char::is_numeric`. Trusted: the result is the named class test.
#[verifier::external_body]
pub(crate) fn char_is_numeric(c: char) -> (r: bool)
    ensures
        r == spec_char_is_numeric(c),
{
    c.is_numeric()
}

/// Calls `char::is_alphabetic`. Trusted: the result is the named class test.
#[verifier::external_body]
pub(crate) fn char_is_alphabetic(c: char) -> (r: bool)
    ensures
        r == spec_char_is_alphabetic(c),
{
    c.is_alphabetic()
}

/// Calls `char::is_alphanumeric`. Trusted: the result is the named class test.
#[verifier::external_body]
pub(crate) fn char_is_alphanumeric(c: char) -> (r: bool)
    ensures
        r == spec_char_is_alphanumeric(c),
{
    c.is_alphanumeric()
}

/// Tells whether `c` has the Unicode `White_Space` property.
fn white_space(c: char) -> (r: bool)
    ensures
        r == is_white_space(c),
{
    ('\u{9}' <= c && c <= '\u{d}') || c == ' ' || c == '\u{85}' || c == '\u{a0}' || c == '\u{1680}'
        || ('\u{2000}' <= c && c <= '\u{200a}') || c == '\u{2028}' || c == '\u{2029}' || c
        == '\u{202f}' || c == '\u{205f}' || c == '\u{3000}'
}

proof fn lemma_trim_start(s: Seq<char>, a: int)
    requires
        0 <= a <= s.len(),
        forall|j: int| 0 <= j < a ==> is_white_space(#[trigger] s[j]),
        a == s.len() || !is_white_space(s[a]),
    ensures
        trim_start_ws(s) == s.skip(a),
    decreases a,
{
    if a > 0 {
        let r = s.drop_first();
        assert forall|j: int| 0 <= j < a - 1 implies is_white_space(#[trigger] r[j]) by {
            assert(r[j] == s[j + 1]);
        }
        if a < s.len() {
            assert(r[a - 1] == s[a]);
        }
        assert(is_white_space(s[0]));
        lemma_trim_start(r, a - 1);
        assert(r.skip(a - 1) =~= s.skip(a));
    } else {
        assert(s.skip(0) =~= s);
    }
}

proof fn lemma_trim_end(s: Seq<char>, k: int)
    requires
        0 <= k <= s.len(),
        forall|j: int| k <= j < s.len() ==> is_white_space(#[trigger] s[j]),
        k == 0 || !is_white_space(s[k - 1]),
    ensures
        trim_end_ws(s) == s.take(k),
    decreases s.len() - k,
{
    if k < s.len() {
        let r = s.drop_last();
        assert forall|j: int| k <= j < r.len() implies is_white_space(#[trigger] r[j]) by {
            assert(r[j] == s[j]);
        }
        if k > 0 {
            assert(r[k - 1] == s[k - 1]);
        }
        assert(is_white_space(s[s.len() - 1]));
        lemma_trim_end(r, k);
        assert(r.take(k) =~= s.take(k));
    } else {
        assert(s.take(k) =~= s);
    }
}

/// `s` without its leading and trailing whitespace characters, as `str::trim` gives it.
pub(crate) fn trim_whitespace(s: &str) -> (r: String)
    ensures
        r@ == spec_str_trim(s@),
{
    let n = s.unicode_len();
    let mut a: usize = 0;
    let mut go = true;
    while go && a < n
        invariant
            a <= n,
            n == s@.len(),
            forall|j: int| 0 <= j < a ==> is_white_space(#[trigger] s@[j]),
            !go ==> a < n && !is_white_space(s@[a as int]),
        decreases n - a + (if go { 1int } else { 0int }),
    {
        if white_space(s.get_char(a)) {
            a = a + 1;
        } else {
            go = false;
        }
    }
    let mut b: usize = n;
    let mut go_back = true;
    while go_back && b > a
        invariant
            a <= b <= n,
            n == s@.len(),
            forall|j: int| b <= j < n ==> is_white_space(#[trigger] s@[j]),
            !go_back ==> b > a && !is_white_space(s@[b - 1]),
        decreases b - a + (if go_back { 1int } else { 0int }),
    {
        if white_space(s.get_char(b - 1)) {
            b = b - 1;
        } else {
            go_back = false;
        }
    }
    proof {
        lemma_trim_start(s@, a as int);
        let t = s@.skip(a as int);
        assert forall|j: int| b - a <= j < t.len() implies is_white_space(#[trigger] t[j]) by {
            assert(t[j] == s@[j + a]);
        }
        if b > a {
            assert(t[b - a - 1] == s@[b - 1]);
        }
        lemma_trim_end(t, b - a);
        assert(t.take(b - a) =~= s@.subrange(a as int, b as int));
    }
    String::from_str(s.substring_char(a, b))
}

/// A segmentation has no more pieces than the sequence has elements.
pub proof fn lemma_segments_len(g: Seq<Seq<char>>, s: Seq<char>)
    requires
        segments_of(g, s),
    ensures
        g.len() <= s.len(),
    decreases g.len(),
{
    if g.len() > 0 {
        let rest = g.drop_first();
        assert(g.flatten() == g[0] + rest.flatten());
        assert forall|i: int| 0 <= i < rest.len() implies (#[trigger] rest[i]).len() > 0 by {
            assert(rest[i] == g[i + 1]);
        }
        lemma_segments_len(rest, rest.flatten());
    }
}

/// Segmenting a string through `graphemes_of` gives its named segmentation, which is a
/// segmentation of it.
pub(crate) fn grapheme_list(s: &str) -> (r: Vec<String>)
    ensures
        strings_view(r@) == spec_graphemes(s@),
        seg_facts(s@),
        spec_graphemes(s@).len() <= s@.len(),
{
    let r = graphemes_of(s);
    proof {
        assert forall|i: int| 0 <= i < spec_graphemes(s@).len() implies (#[trigger] spec_graphemes(s@)[i]).len() > 0 by {
            assert(strings_view(r@)[i] == r@[i]@);
        }
        lemma_segments_len(spec_graphemes(s@), s@);
    }
    r
}

} // verus!
