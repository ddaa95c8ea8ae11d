//! Path, file-name and URL helpers, specified over the grapheme clusters of their inputs.

use crate::split::{contains_str, find_from, split_spec, split_str};
use crate::stringops::{
    backslash_text, between, count, dot_text, ends_with, index_of, last_index_of, lemma_between_piece_len,
    lemma_index_of_bounds, lemma_last_index_of_bounds, slash_text, spec_between, spec_ends_with,
    spec_index_of, spec_last_index_of, spec_starts_with, spec_substring, starts_with, substring,
};
use crate::unicode::{glen, seg_facts, segments_of, spec_graphemes, strings_view};
use vstd::prelude::*;

verus! {

/// "\"" as a string.
pub fn quote_text() -> (r: String)
    ensures
        r@ == seq!['"'],
{
    let r = String::from_str("\"");
    proof {
        reveal_strlit("\"");
    }
    assert(r@ =~= seq!['"']);
    r
}

/// "?" as a string.
pub fn question_text() -> (r: String)
    ensures
        r@ == seq!['?'],
{
    let r = String::from_str("?");
    proof {
        reveal_strlit("?");
    }
    assert(r@ =~= seq!['?']);
    r
}

/// "&" as a string.
pub fn amp_text() -> (r: String)
    ensures
        r@ == seq!['&'],
{
    let r = String::from_str("&");
    proof {
        reveal_strlit("&");
    }
    assert(r@ =~= seq!['&']);
    r
}

/// "&quot;" as a string.
pub fn quot_entity_text() -> (r: String)
    ensures
        r@ == seq!['&', 'q', 'u', 'o', 't', ';'],
{
    let r = String::from_str("&quot;");
    proof {
        reveal_strlit("&quot;");
    }
    assert(r@ =~= seq!['&', 'q', 'u', 'o', 't', ';']);
    r
}

/// The clusters of a one-character string are that string alone.
pub(crate) proof fn lemma_single_char_clusters(s: Seq<char>)
    requires
        seg_facts(s),
        s.len() == 1,
    ensures
        spec_graphemes(s) == seq![s],
{
    let g = spec_graphemes(s);
    crate::unicode::lemma_segments_len(g, s);
    if g.len() == 0 {
        assert(g.flatten() =~= Seq::<char>::empty());
    } else {
        assert(g.flatten() == g[0] + g.drop_first().flatten());
        assert(g[0].len() >= 1);
        assert(g.len() == 1);
        assert(g.drop_first() =~= Seq::<Seq<char>>::empty());
        assert(g[0] =~= s);
        assert(g =~= seq![s]);
    }
}

/// `u` cut before the first match of `pat` (found by cluster, ignoring case) when `pat`
/// occurs in it.
pub open spec fn cut_first(u: Seq<char>, pat: Seq<char>) -> Seq<char> {
    if find_from(u, pat, 0) != -1 {
        spec_substring(u, 0, spec_index_of(u, pat, 0, true))
    } else {
        u
    }
}

/// `u` cut before the last match of `pat` (found by cluster, ignoring case) when `pat`
/// occurs in it.
pub open spec fn cut_last(u: Seq<char>, pat: Seq<char>) -> Seq<char> {
    if find_from(u, pat, 0) != -1 {
        spec_substring(u, 0, spec_last_index_of(u, pat, true))
    } else {
        u
    }
}

fn cut_before_first(u: String, pat: String) -> (r: String)
    requires
        u@.len() <= i32::MAX,
    ensures
        r@ == cut_first(u@, pat@),
        r@.len() <= u@.len(),
{
    if contains_str(u.as_str(), pat.as_str()) {
        let j = index_of(&u, pat.clone(), 0, true);
        proof {
            lemma_index_of_bounds(true, spec_graphemes(u@), spec_graphemes(pat@), 0);
        }
        substring(&u, 0, j)
    } else {
        u
    }
}

fn cut_before_last(u: String, pat: String) -> (r: String)
    requires
        u@.len() <= i32::MAX,
    ensures
        r@ == cut_last(u@, pat@),
        r@.len() <= u@.len(),
{
    if contains_str(u.as_str(), pat.as_str()) {
        let j = last_index_of(&u, pat.clone(), true);
        proof {
            lemma_last_index_of_bounds(true, spec_graphemes(u@), spec_graphemes(pat@));
        }
        substring(&u, 0, j)
    } else {
        u
    }
}

/// A found address cut at its closing quote, at its query and at its last backslash.
pub open spec fn clean_url(u: Seq<char>) -> Seq<char> {
    cut_last(cut_first(cut_first(u, seq!['"']), seq!['?']), seq!['\\'])
}

pub open spec fn spec_url_between(prefix: Seq<char>, s: Seq<char>) -> Seq<Seq<char>> {
    spec_between(s, prefix, seq!['"'], 0, true).map_values(|u: Seq<char>| prefix + clean_url(u))
}

/// The texts between `prefix` and the next quote in `str`, each with `prefix` put back in
/// front and cut at a quote, at its query and at its last backslash.
pub fn url_between(prefix: String, str: String) -> (r: Vec<String>)
    requires
        str@.len() <= i32::MAX,
    ensures
        strings_view(r@) == spec_url_between(prefix@, str@),
{
    let urls = between(&str, prefix.clone(), quote_text(), 0, true);
    let ghost found = spec_between(str@, prefix@, seq!['"'], 0, true);
    proof {
        lemma_single_char_clusters(seq!['"']);
        lemma_between_piece_len(str@, prefix@, seq!['"'], 0, true);
    }
    let mut result: Vec<String> = Vec::new();
    let mut i: usize = 0;
    assert(strings_view(result@) =~= found.take(0).map_values(|u: Seq<char>| prefix@ + clean_url(u)));
    while i < urls.len()
        invariant
            strings_view(urls@) == found,
            str@.len() <= i32::MAX,
            forall|j: int| 0 <= j < found.len() ==> (#[trigger] found[j]).len() <= str@.len(),
            0 <= i <= urls.len(),
            strings_view(result@) == found.take(i as int).map_values(|u: Seq<char>| prefix@ + clean_url(u)),
        decreases urls.len() - i,
    {
        let mut u = urls[i].clone();
        assert(u@ == found[i as int]);
        u = cut_before_first(u, quote_text());
        u = cut_before_first(u, question_text());
        u = cut_before_last(u, backslash_text());
        let ghost before = strings_view(result@);
        result.push(prefix.clone().concat(u.as_str()));
        assert(strings_view(result@) =~= before.push(prefix@ + clean_url(found[i as int])));
        assert(found.take(i as int + 1).map_values(|u: Seq<char>| prefix@ + clean_url(u)) =~= found.take(
            i as int,
        ).map_values(|u: Seq<char>| prefix@ + clean_url(u)).push(prefix@ + clean_url(found[i as int])));
        i += 1;
    }
    assert(found.take(urls.len() as int) =~= found);
    result
}

/// What `urlencoding::decode` returns for a string: the decoded text, or `None` where it
/// reports invalid UTF-8.
pub uninterp spec fn spec_url_decode(s: Seq<char>) -> Option<Seq<char>>;

/// Calls `urlencoding::decode`. Trusted: the result is the named decoding of `s`, and a
/// decoded text has no more characters than `s`: the decoder copies each byte of `s`
/// except that it turns a "%" with two hex digits into one byte, so the bytes that begin a
/// character in its output come one from each character of `s` that is copied and one
/// from each three that are decoded; when the output is no UTF-8 the call fails.
#[verifier::external_body]
fn url_decode(s: &str) -> (r: Option<String>)
    ensures
        match r {
            Some(d) => spec_url_decode(s@) == Some(d@) && d@.len() <= s@.len(),
            None => spec_url_decode(s@) is None,
        },
{
    match urlencoding::decode(s) {
        Ok(d) => Some(d.into_owned()),
        Err(_) => None,
    }
}

/// A found address, percent-decoded where that succeeds, cut at a quote and at "&quot;".
pub open spec fn clean_decoded_url(u: Seq<char>) -> Seq<char> {
    let d = match spec_url_decode(u) {
        Some(x) => x,
        None => u,
    };
    cut_first(cut_first(d, seq!['"']), seq!['&', 'q', 'u', 'o', 't', ';'])
}

pub open spec fn spec_url_between_all_urls(prefix: Seq<char>, s: Seq<char>) -> Seq<Seq<char>> {
    spec_between(s, prefix, seq!['"'], 0, true).map_values(|u: Seq<char>| prefix + clean_decoded_url(u))
}

pub open spec fn spec_url_between_all(prefix: Seq<char>, s: Seq<char>) -> (Seq<Seq<char>>, int) {
    let urls = spec_url_between_all_urls(prefix, s);
    let last = if urls.len() > 0 {
        spec_last_index_of(s, urls.last(), true)
    } else {
        -1
    };
    (urls, last)
}

/// Like `url_between`, but each address is percent-decoded first and cut at a quote and at
/// "&quot;"; also the cluster position of the last match of the last address in `str`
/// (-1 when none was found).
pub fn url_between_all(prefix: String, str: String) -> (r: (Vec<String>, i32))
    requires
        str@.len() <= i32::MAX,
    ensures
        (strings_view(r.0@), r.1 as int) == spec_url_between_all(prefix@, str@),
{
    let urls = between(&str, prefix.clone(), quote_text(), 0, true);
    let ghost found = spec_between(str@, prefix@, seq!['"'], 0, true);
    proof {
        lemma_single_char_clusters(seq!['"']);
        lemma_between_piece_len(str@, prefix@, seq!['"'], 0, true);
    }
    let mut result: Vec<String> = Vec::new();
    let mut i: usize = 0;
    assert(strings_view(result@) =~= found.take(0).map_values(
        |u: Seq<char>| prefix@ + clean_decoded_url(u),
    ));
    while i < urls.len()
        invariant
            strings_view(urls@) == found,
            str@.len() <= i32::MAX,
            forall|j: int| 0 <= j < found.len() ==> (#[trigger] found[j]).len() <= str@.len(),
            0 <= i <= urls.len(),
            strings_view(result@) == found.take(i as int).map_values(
                |u: Seq<char>| prefix@ + clean_decoded_url(u),
            ),
        decreases urls.len() - i,
    {
        let mut u = urls[i].clone();
        assert(u@ == found[i as int]);
        match url_decode(urls[i].as_str()) {
            Some(x) => {
                u = x;
            },
            None => {},
        }
        u = cut_before_first(u, quote_text());
        u = cut_before_first(u, quot_entity_text());
        let ghost before = strings_view(result@);
        result.push(prefix.clone().concat(u.as_str()));
        assert(strings_view(result@) =~= before.push(prefix@ + clean_decoded_url(found[i as int])));
        assert(found.take(i as int + 1).map_values(|u: Seq<char>| prefix@ + clean_decoded_url(u))
            =~= found.take(i as int).map_values(|u: Seq<char>| prefix@ + clean_decoded_url(u)).push(
            prefix@ + clean_decoded_url(found[i as int]),
        ));
        i += 1;
    }
    assert(found.take(urls.len() as int) =~= found);
    let mut last_index: i32 = -1;
    if result.len() > 0 {
        let find = result[result.len() - 1].clone();
        last_index = last_index_of(&str, find, true);
    }
    (result, last_index)
}


/// The loop of `url_inside_all` from cluster `i`: for each match of `prefix` at or after
/// `i`, the text between the last quote before the next quote (searched from `i`) and that
/// quote; and the position after that quote.
pub open spec fn inside_loop(s: Seq<char>, prefix: Seq<char>, i: int, urls: Seq<Seq<char>>, last: int) -> (
    Seq<Seq<char>>,
    int,
)
    decreases glen(s) - i,
{
    let c = glen(s);
    if !(i < c && i != -1) {
        (urls, last)
    } else {
        let sidx = spec_index_of(s, prefix, i, true);
        if sidx == -1 {
            (urls, last)
        } else {
            let end = spec_index_of(s, seq!['"'], sidx, true);
            let str2 = spec_substring(s, i, end - i);
            let st = spec_last_index_of(str2, seq!['"'], true);
            let found = end != -1 && st != -1;
            let urls2 = if found {
                urls.push(spec_substring(str2, st + 1, glen(str2) - (st + 1)))
            } else {
                urls
            };
            let last2 = if found {
                end + 1
            } else {
                last
            };
            let ni = sidx + glen(prefix);
            if i < ni && ni < c {
                inside_loop(s, prefix, ni, urls2, last2)
            } else {
                (urls2, last2)
            }
        }
    }
}

pub open spec fn spec_url_inside_all(prefix: Seq<char>, s: Seq<char>) -> (Seq<Seq<char>>, int) {
    inside_loop(s, prefix, 0, Seq::empty(), -1)
}

/// For each match of `prefix` in `str`, the quoted text that ends at the next quote after
/// the match; also the cluster position after the last such quote (-1 when none).
/// With an empty `prefix` and a non-empty `str` the search never advances and does not end;
/// that input is left out.
pub fn url_inside_all(prefix: String, str: String) -> (r: (Vec<String>, i32))
    requires
        str@.len() <= i32::MAX,
        str@.len() > 0 ==> prefix@.len() > 0,
    ensures
        (strings_view(r.0@), r.1 as int) == spec_url_inside_all(prefix@, str@),
{
    let mut i: i32 = 0;
    let c = count(&str);
    let pc = count(&prefix);
    let mut last_index: i32 = -1;
    let mut urls: Vec<String> = Vec::new();
    assert(strings_view(urls@) =~= Seq::<Seq<char>>::empty());
    loop
        invariant
            str@.len() <= i32::MAX,
            str@.len() > 0 ==> prefix@.len() > 0,
            c == glen(str@),
            seg_facts(str@),
            seg_facts(prefix@),
            pc == glen(prefix@) as i32,
            0 <= i,
            spec_url_inside_all(prefix@, str@) == inside_loop(
                str@,
                prefix@,
                i as int,
                strings_view(urls@),
                last_index as int,
            ),
        decreases c - i,
    {
        if !(i < c && i != -1) {
            return (urls, last_index);
        }
        let s = index_of(&str, prefix.clone(), i, true);
        proof {
            lemma_index_of_bounds(true, spec_graphemes(str@), spec_graphemes(prefix@), i as int);
            crate::unicode::lemma_segments_len(spec_graphemes(prefix@), prefix@);
            if prefix@.len() > 0 && spec_graphemes(prefix@).len() == 0 {
                assert(spec_graphemes(prefix@).flatten() =~= Seq::<char>::empty());
            }
        }
        if s == -1 {
            return (urls, last_index);
        }
        let end = index_of(&str, quote_text(), s, true);
        proof {
            lemma_single_char_clusters(seq!['"']);
            lemma_index_of_bounds(true, spec_graphemes(str@), spec_graphemes(seq!['"']), s as int);
        }
        let ghost urls0 = strings_view(urls@);
        if end != -1 {
            let str2 = substring(&str, i, end - i);
            let c2 = count(&str2);
            let start = last_index_of(&str2, quote_text(), true);
            proof {
                lemma_last_index_of_bounds(true, spec_graphemes(str2@), spec_graphemes(seq!['"']));
            }
            if start != -1 {
                let url = substring(&str2, start + 1, c2 - (start + 1));
                last_index = end + 1;
                urls.push(url);
                assert(strings_view(urls@) =~= urls0.push(url@));
            }
        }
        i = s + pc;
    }
}

pub open spec fn spec_get_url(prefix: Seq<char>, s: Seq<char>) -> Seq<char> {
    let i = spec_index_of(s, prefix, 0, true);
    if i == -1 {
        Seq::empty()
    } else {
        let start = spec_substring(s, i, glen(s) - i);
        let start2 = cut_at_index(start, spec_index_of(start, seq!['"'], 0, true));
        cut_at_index(start2, spec_index_of(start2, seq!['?'], 0, true))
    }
}

/// `u` cut before cluster `i`, or `u` when `i` is -1.
pub open spec fn cut_at_index(u: Seq<char>, i: int) -> Seq<char> {
    if i != -1 {
        spec_substring(u, 0, i)
    } else {
        u
    }
}

/// The address that starts at the first match of `prefix` in `str`, cut at the next quote
/// and at its query; "" when `prefix` does not occur.
pub fn get_url(prefix: String, str: String) -> (r: String)
    requires
        str@.len() <= i32::MAX,
    ensures
        r@ == spec_get_url(prefix@, str@),
{
    let i = index_of(&str, prefix.clone(), 0, true);
    let c = count(&str);
    if i == -1 {
        return String::new();
    }
    proof {
        lemma_index_of_bounds(true, spec_graphemes(str@), spec_graphemes(prefix@), 0);
    }
    let mut start = substring(&str, i, c - i);
    let j = index_of(&start, quote_text(), 0, true);
    proof {
        lemma_index_of_bounds(true, spec_graphemes(start@), spec_graphemes(seq!['"']), 0);
    }
    if j != -1 {
        start = substring(&start, 0, j);
    }
    let k = index_of(&start, question_text(), 0, true);
    proof {
        lemma_index_of_bounds(true, spec_graphemes(start@), spec_graphemes(seq!['?']), 0);
    }
    if k != -1 {
        start = substring(&start, 0, k);
    }
    start
}

pub open spec fn spec_get_extension(f: Seq<char>) -> Seq<char> {
    let i = spec_last_index_of(f, seq!['.'], true);
    if i == -1 {
        Seq::empty()
    } else {
        spec_substring(f, i, glen(f) - i)
    }
}

/// The last "." of `file` and what follows it; "" when there is none.
pub fn get_extension(file: String) -> (r: String)
    requires
        file@.len() <= i32::MAX,
    ensures
        r@ == spec_get_extension(file@),
        seg_facts(file@),
        seg_facts(seq!['.']),
{
    let i = last_index_of(&file, dot_text(), true);
    if i == -1 {
        return String::new();
    }
    proof {
        lemma_last_index_of_bounds(true, spec_graphemes(file@), spec_graphemes(seq!['.']));
    }
    let c = count(&file);
    substring(&file, i, c - i)
}

/// The position of the last "/" or, when it is later or there is no "/", of the last "\\".
pub open spec fn last_dir_sep(f: Seq<char>) -> int {
    let i = spec_last_index_of(f, seq!['/'], true);
    let j = spec_last_index_of(f, seq!['\\'], true);
    if (j > i || i == -1) && j != -1 {
        j
    } else {
        i
    }
}

fn last_dir_separator(file: &String) -> (r: i32)
    requires
        file@.len() <= i32::MAX,
    ensures
        r == last_dir_sep(file@),
        r == -1 || (0 <= r <= glen(file@) && r < i32::MAX),
        seg_facts(file@),
        seg_facts(seq!['/']),
        seg_facts(seq!['\\']),
        glen(file@) <= file@.len(),
{
    let mut i = last_index_of(file, slash_text(), true);
    let j = last_index_of(file, backslash_text(), true);
    proof {
        lemma_last_index_of_bounds(true, spec_graphemes(file@), spec_graphemes(seq!['/']));
        lemma_last_index_of_bounds(true, spec_graphemes(file@), spec_graphemes(seq!['\\']));
    }
    if (j > i || i == -1) && j != -1 {
        i = j;
    }
    i
}

pub open spec fn spec_get_filename(f: Seq<char>) -> Seq<char> {
    let c = glen(f);
    let i = last_dir_sep(f);
    if i == c - 1 {
        Seq::empty()
    } else if i == -1 {
        f
    } else {
        spec_substring(f, i + 1, c - i - 1)
    }
}

/// What follows the last "/" or "\\" of `file`; "" when `file` ends with it; `file` itself
/// when it has none.
pub fn get_filename(file: String) -> (r: String)
    requires
        file@.len() <= i32::MAX,
    ensures
        r@ == spec_get_filename(file@),
        seg_facts(file@),
        seg_facts(seq!['/']),
        seg_facts(seq!['\\']),
{
    let i = last_dir_separator(&file);
    let c = count(&file);
    if i == c - 1 {
        return String::new();
    }
    if i == -1 {
        return file;
    }
    substring(&file, i + 1, c - i - 1)
}

pub open spec fn spec_path_strip_extension(f: Seq<char>) -> Seq<char> {
    let f2 = spec_get_filename(f);
    let ii = spec_last_index_of(f2, seq!['.'], true);
    if ii > 0 {
        spec_substring(f2, 0, ii)
    } else {
        f2
    }
}

/// The file name of `file` (see `get_filename`) without its last "." and what follows, when
/// that "." is not its first cluster.
pub fn get_filename_without_extension(file: String) -> (r: String)
    requires
        file@.len() <= i32::MAX,
    ensures
        r@ == spec_path_strip_extension(file@),
{
    let ghost f = file@;
    let file2 = get_filename(file);
    proof {
        lemma_get_filename_len(f);
    }
    let ii = last_index_of(&file2, dot_text(), true);
    proof {
        lemma_last_index_of_bounds(true, spec_graphemes(file2@), spec_graphemes(seq!['.']));
    }
    if ii > 0 {
        return substring(&file2, 0, ii);
    }
    file2
}

/// A file name is no longer than its path.
proof fn lemma_get_filename_len(f: Seq<char>)
    requires
        seg_facts(f),
    ensures
        spec_get_filename(f).len() <= f.len(),
{
    let g = spec_graphemes(f);
    let c = glen(f);
    let i = last_dir_sep(f);
    if i != c - 1 && i != -1 {
        crate::stringops::lemma_substring_len(f, i + 1, c - i - 1);
    }
}

pub open spec fn spec_get_directory_name(f: Seq<char>) -> Seq<char> {
    let i = last_dir_sep(f);
    if i != -1 {
        spec_substring(f, 0, i)
    } else {
        seq!['.']
    }
}

/// What precedes the last "/" or "\\" of `file`; "." when it has none.
pub fn get_directory_name(file: String) -> (r: String)
    requires
        file@.len() <= i32::MAX,
    ensures
        r@ == spec_get_directory_name(file@),
        seg_facts(file@),
        seg_facts(seq!['/']),
        seg_facts(seq!['\\']),
{
    let i = last_dir_separator(&file);
    let _c = count(&file);
    if i != -1 {
        return substring(&file, 0, i);
    }
    dot_text()
}

pub open spec fn https_prefix() -> Seq<char> {
    seq!['h', 't', 't', 'p', 's', ':', '/', '/']
}

pub open spec fn http_prefix() -> Seq<char> {
    seq!['h', 't', 't', 'p', ':', '/', '/']
}

pub open spec fn spec_get_domain(url: Seq<char>) -> Seq<char> {
    let i: int = if spec_starts_with(url, https_prefix(), true) {
        8
    } else if spec_starts_with(url, http_prefix(), true) {
        7
    } else {
        8
    };
    let x0 = spec_index_of(url, seq!['/'], i, true);
    let x = if x0 == -1 {
        glen(url)
    } else {
        x0
    };
    spec_substring(url, i, x - i)
}

/// The clusters of `url` from the 8th (after "https://", or by default) or the 7th (after
/// "http://") up to the next "/" or the end.
pub fn get_domain(url: String) -> (r: String)
    requires
        url@.len() <= i32::MAX,
    ensures
        r@ == spec_get_domain(url@),
{
    let https = String::from_str("https://");
    let http = String::from_str("http://");
    proof {
        reveal_strlit("https://");
        reveal_strlit("http://");
    }
    assert(https@ =~= https_prefix());
    assert(http@ =~= http_prefix());
    let mut i: i32 = 8;
    if starts_with(&url, https, true) {
        i = 8;
    } else if starts_with(&url, http, true) {
        i = 7;
    }
    let mut x = index_of(&url, slash_text(), i, true);
    proof {
        lemma_index_of_bounds(true, spec_graphemes(url@), spec_graphemes(seq!['/']), i as int);
    }
    if x == -1 {
        x = count(&url);
    }
    substring(&url, i, x - i)
}


/// `u` with its last cluster dropped while it ends with "/", at most `fuel` times.
pub open spec fn strip_slashes(u: Seq<char>, fuel: nat) -> Seq<char>
    decreases fuel,
{
    if fuel == 0 || !spec_ends_with(u, seq!['/'], false) {
        u
    } else {
        strip_slashes(spec_substring(u, 0, glen(u) - 1), (fuel - 1) as nat)
    }
}

pub open spec fn spec_remove_last_slash(u: Seq<char>) -> Seq<char> {
    strip_slashes(u, u.len())
}

/// Dropping the last cluster of a segmented string leaves fewer characters.
proof fn lemma_drop_last_cluster_len(u: Seq<char>)
    requires
        seg_facts(u),
        glen(u) >= 1,
    ensures
        spec_substring(u, 0, glen(u) - 1).len() < u.len(),
{
    let g = spec_graphemes(u);
    let c = g.len() as int;
    crate::stringops::lemma_flat_range_push(g, 0, c - 1);
    assert(g.subrange(0, c) =~= g);
    assert(g[c - 1].len() > 0);
    if c - 1 > 0 {
        assert(spec_substring(u, 0, c - 1) == crate::stringops::flat_range(g, 0, c - 1));
    } else {
        assert(spec_substring(u, 0, c - 1) =~= Seq::<char>::empty());
    }
}

/// `url` with its trailing "/" clusters dropped.
pub fn remove_last_slash(url: String) -> (r: String)
    requires
        url@.len() <= i32::MAX,
    ensures
        r@ == spec_remove_last_slash(url@),
        r@.len() <= url@.len(),
{
    let ghost u0 = url@;
    let mut url = url;
    let ghost mut f: nat = url@.len();
    while ends_with(&url, slash_text(), false)
        invariant
            url@.len() <= f,
            f <= u0.len(),
            u0.len() <= i32::MAX,
            strip_slashes(url@, f) == spec_remove_last_slash(u0),
        decreases url@.len(),
    {
        proof {
            lemma_single_char_clusters(seq!['/']);
        }
        let c = count(&url);
        proof {
            lemma_drop_last_cluster_len(url@);
        }
        url = substring(&url, 0, c - 1);
        proof {
            f = (f - 1) as nat;
        }
    }
    url
}

/// The file part of an address: what follows its last "/" (or later "\\") once trailing
/// slashes are dropped, rewritten as "name&query.ext" when the part before its "?" has a
/// "." past its first cluster. `None` where that computation cannot be carried out: the "."
/// is searched in a re-segmented prefix, and its position can lie past the clusters of the
/// whole part, so that cutting there would go out of range; and where a string outgrows
/// the `i32` positions.
pub open spec fn url_filename_opt(file0: Seq<char>) -> Option<Seq<char>> {
    if file0.len() > i32::MAX {
        None
    } else {
        let file = spec_remove_last_slash(file0);
        if file.len() == 0 {
            Some(file)
        } else {
            let i0 = spec_last_index_of(file, seq!['/'], true);
            let j = spec_last_index_of(file, seq!['\\'], true);
            let c = glen(file);
            let i = if j > i0 && (j != -1 || i0 == -1) {
                j
            } else {
                i0
            };
            let result = spec_substring(file, i + 1, c - i - 1);
            let k2 = spec_index_of(result, seq!['?'], 0, true);
            let k = if k2 > 0 {
                spec_last_index_of(spec_substring(result, 0, k2), seq!['.'], true)
            } else {
                -1
            };
            if k > 0 {
                let rc = glen(result);
                if k > rc {
                    None
                } else {
                    let ext = if k2 != -1 && k2 > k {
                        spec_substring(result, k, k2 - k)
                    } else {
                        spec_substring(result, k, rc - k)
                    };
                    let tail = if k2 >= 0 {
                        spec_substring(result, k2 + 1, rc - k2 - 1)
                    } else {
                        Seq::empty()
                    };
                    Some(spec_substring(result, 0, k) + seq!['&'] + tail + ext)
                }
            } else {
                Some(result)
            }
        }
    }
}

/// Computes `url_filename_opt`.
fn url_filename_core(file: String) -> (r: Option<String>)
    ensures
        match r {
            Some(x) => url_filename_opt(file@) == Some(x@),
            None => url_filename_opt(file@) is None,
        },
{
    if file.as_str().unicode_len() > 2147483647usize {
        return None;
    }
    let file = remove_last_slash(file);
    if file.as_str().unicode_len() == 0 {
        return Some(file);
    }
    let mut i = last_index_of(&file, slash_text(), true);
    let j = last_index_of(&file, backslash_text(), true);
    let c = count(&file);
    proof {
        lemma_single_char_clusters(seq!['/']);
        lemma_single_char_clusters(seq!['\\']);
        lemma_last_index_of_bounds(true, spec_graphemes(file@), spec_graphemes(seq!['/']));
        lemma_last_index_of_bounds(true, spec_graphemes(file@), spec_graphemes(seq!['\\']));
    }
    if j > i && (j != -1 || i == -1) {
        i = j;
    }
    let mut result = substring(&file, i + 1, c - (i + 1));
    let k2 = index_of(&result, question_text(), 0, true);
    proof {
        lemma_single_char_clusters(seq!['?']);
        lemma_index_of_bounds(true, spec_graphemes(result@), spec_graphemes(seq!['?']), 0);
    }
    let mut k: i32 = -1;
    if k2 > 0 {
        let s = substring(&result, 0, k2);
        k = last_index_of(&s, dot_text(), true);
    }
    if k > 0 {
        let rc = count(&result);
        if k > rc {
            return None;
        }
        let ext = if k2 != -1 && k2 > k {
            substring(&result, k, k2 - k)
        } else {
            substring(&result, k, rc - k)
        };
        let resultx = substring(&result, 0, k);
        let mut tail = String::new();
        if k2 >= 0 {
            tail = substring(&result, k2 + 1, rc - k2 - 1);
        }
        result = resultx.concat(amp_text().as_str()).concat(tail.as_str()).concat(ext.as_str());
    }
    Some(result)
}

/// The file part of an address (see `url_filename_opt`); left out are the inputs on which
/// it cannot be computed.
pub fn get_url_filename(file: String) -> (r: String)
    requires
        url_filename_opt(file@) is Some,
    ensures
        url_filename_opt(file@) == Some(r@),
{
    match url_filename_core(file) {
        Some(x) => x,
        None => String::new(),
    }
}

/// `get_url_filename` where it can be computed; `None` elsewhere.
pub fn try_get_url_filename(file: String) -> (r: Option<String>)
    ensures
        match r {
            Some(x) => url_filename_opt(file@) == Some(x@),
            None => url_filename_opt(file@) is None,
        },
{
    match url_filename_core(file.clone()) {
        Some(_) => Some(get_url_filename(file)),
        None => None,
    }
}

/// The pieces `a[k]`, `1 <= k < n`, that differ from `b[k]`, in order.
pub open spec fn diffs_upto(a: Seq<Seq<char>>, b: Seq<Seq<char>>, n: int) -> Seq<Seq<char>>
    decreases n,
{
    if n <= 1 {
        Seq::empty()
    } else {
        let r = diffs_upto(a, b, n - 1);
        if a[n - 1] != b[n - 1] {
            r.push(a[n - 1])
        } else {
            r
        }
    }
}

/// Each piece with "&" in front, concatenated.
pub open spec fn join_amp(d: Seq<Seq<char>>) -> Seq<char>
    decreases d.len(),
{
    if d.len() == 0 {
        Seq::empty()
    } else {
        join_amp(d.drop_last()) + seq!['&'] + d.last()
    }
}

/// The file part of `file` keeping, of its "&" pieces after the first, those that differ
/// from the neighbour `up` (or, failing that, `down`) with the same first piece; `None`
/// where one of the three file parts cannot be computed or a cut would go out of range.
pub open spec fn url_filename_compare_opt(file: Seq<char>, up: Seq<char>, down: Seq<char>) -> Option<
    Seq<char>,
> {
    match (url_filename_opt(file), url_filename_opt(up), url_filename_opt(down)) {
        (Some(f1), Some(u), Some(d)) => {
            if u.len() == 0 && d.len() == 0 {
                url_filename_opt(f1)
            } else {
                let s1 = split_spec(f1, seq!['&']);
                let s2 = split_spec(u, seq!['&']);
                let s3 = split_spec(d, seq!['&']);
                let up_ok = s1.len() == s2.len() && s1[0] == s2[0];
                let diff = if up_ok {
                    diffs_upto(s1, s2, s1.len() as int)
                } else if s1.len() == s3.len() && s1[0] == s3[0] {
                    diffs_upto(s1, s3, s1.len() as int)
                } else {
                    Seq::empty()
                };
                url_filename_opt(s1[0] + join_amp(diff))
            }
        },
        _ => None,
    }
}

/// A split has at least one piece.
proof fn lemma_split_nonempty(s: Seq<char>, pat: Seq<char>)
    ensures
        split_spec(s, pat).len() >= 1,
{
    if pat.len() > 0 {
        let k0 = find_from(s, pat, 0);
        if k0 >= 0 {
            crate::split::lemma_find_from_bounds(s, pat, 0);
        }
    }
}

/// Appends to `diff` the pieces `s1[k]`, `1 <= k`, that differ from `s2[k]`.
fn push_diffs(s1: &Vec<String>, s2: &Vec<String>, diff: &mut Vec<String>)
    requires
        s1.len() == s2.len(),
        old(diff)@.len() == 0,
    ensures
        strings_view(final(diff)@) == diffs_upto(strings_view(s1@), strings_view(s2@), s1.len() as int),
{
    let ghost a = strings_view(s1@);
    let ghost b = strings_view(s2@);
    let mut i: usize = 1;
    assert(strings_view(diff@) =~= diffs_upto(a, b, 1));
    while i < s1.len()
        invariant
            s1.len() == s2.len(),
            a == strings_view(s1@),
            b == strings_view(s2@),
            1 <= i <= s1.len() || s1.len() == 0,
            strings_view(diff@) == diffs_upto(a, b, if i <= s1.len() { i as int } else { s1.len() as int }),
        decreases s1.len() - i,
    {
        assert(a[i as int] == s1@[i as int]@);
        assert(b[i as int] == s2@[i as int]@);
        if s1[i] != s2[i] {
            let ghost before = strings_view(diff@);
            diff.push(s1[i].clone());
            assert(strings_view(diff@) =~= before.push(a[i as int]));
        }
        i += 1;
    }
    if s1.len() == 0 {
        assert(diffs_upto(a, b, 0) =~= Seq::<Seq<char>>::empty());
    }
}

/// The file part of `file`, keeping only its query pieces that differ from a neighbouring
/// address (`up`, else `down`); left out are the inputs on which it cannot be computed.
pub fn get_url_filename_compare(file: String, up: String, down: String) -> (r: String)
    requires
        url_filename_compare_opt(file@, up@, down@) is Some,
    ensures
        url_filename_compare_opt(file@, up@, down@) == Some(r@),
{
    match url_filename_compare_core(file, up, down) {
        Some(x) => x,
        None => String::new(),
    }
}

/// `get_url_filename_compare` where it can be computed; `None` elsewhere.
pub fn try_get_url_filename_compare(file: String, up: String, down: String) -> (r: Option<String>)
    ensures
        match r {
            Some(x) => url_filename_compare_opt(file@, up@, down@) == Some(x@),
            None => url_filename_compare_opt(file@, up@, down@) is None,
        },
{
    match url_filename_compare_core(file.clone(), up.clone(), down.clone()) {
        Some(_) => Some(get_url_filename_compare(file, up, down)),
        None => None,
    }
}

/// Computes `url_filename_compare_opt`.
fn url_filename_compare_core(file: String, up: String, down: String) -> (r: Option<String>)
    ensures
        match r {
            Some(x) => url_filename_compare_opt(file@, up@, down@) == Some(x@),
            None => url_filename_compare_opt(file@, up@, down@) is None,
        },
{
    let file1 = match url_filename_core(file) {
        Some(x) => x,
        None => return None,
    };
    let up1 = match url_filename_core(up) {
        Some(x) => x,
        None => return None,
    };
    let down1 = match url_filename_core(down) {
        Some(x) => x,
        None => return None,
    };
    if up1.as_str().unicode_len() == 0 && down1.as_str().unicode_len() == 0 {
        return url_filename_core(file1);
    }
    let sps1 = split_str(file1.as_str(), amp_text().as_str());
    let sps2 = split_str(up1.as_str(), amp_text().as_str());
    let sps3 = split_str(down1.as_str(), amp_text().as_str());
    proof {
        lemma_split_nonempty(file1@, seq!['&']);
        lemma_split_nonempty(up1@, seq!['&']);
        lemma_split_nonempty(down1@, seq!['&']);
        assert(strings_view(sps1@)[0] == sps1@[0]@);
        assert(strings_view(sps2@)[0] == sps2@[0]@);
        assert(strings_view(sps3@)[0] == sps3@[0]@);
    }
    let mut up_success = false;
    let mut diff: Vec<String> = Vec::new();
    if sps1.len() == sps2.len() {
        if sps1[0] == sps2[0] {
            push_diffs(&sps1, &sps2, &mut diff);
            up_success = true;
        }
    }
    if sps1.len() == sps3.len() && up_success == false {
        if sps1[0] == sps3[0] {
            push_diffs(&sps1, &sps3, &mut diff);
        }
    }
    let ghost d = strings_view(diff@);
    let mut result = sps1[0].clone();
    let mut j: usize = 0;
    assert(d.take(0) =~= Seq::<Seq<char>>::empty());
    while j < diff.len()
        invariant
            d == strings_view(diff@),
            0 <= j <= diff.len(),
            result@ == sps1@[0]@ + join_amp(d.take(j as int)),
        decreases diff.len() - j,
    {
        result = result.concat(amp_text().as_str()).concat(diff[j].as_str());
        assert(d.take(j as int + 1).drop_last() =~= d.take(j as int));
        assert(d[j as int] == diff@[j as int]@);
        assert(result@ =~= sps1@[0]@ + join_amp(d.take(j as int + 1)));
        j += 1;
    }
    assert(d.take(diff.len() as int) =~= d);
    url_filename_core(result)
}

/// One line: a trailing "\r" cluster dropped.
pub open spec fn line_of(s: Seq<char>) -> Seq<char> {
    let c = glen(s);
    if spec_ends_with(s, seq!['\r'], false) {
        spec_substring(s, 0, c - 1)
    } else {
        spec_substring(s, 0, c)
    }
}

pub open spec fn spec_lines(text: Seq<char>) -> Seq<Seq<char>> {
    split_spec(text, seq!['\n']).map_values(|s: Seq<char>| line_of(s))
}

/// The lines of a text, split at "\n", each without a trailing "\r".
pub fn lines_of(text: &String) -> (r: Vec<String>)
    requires
        text@.len() <= i32::MAX,
    ensures
        strings_view(r@) == spec_lines(text@),
{
    let nl = String::from_str("\n");
    proof {
        reveal_strlit("\n");
    }
    assert(nl@ =~= seq!['\n']);
    let list = split_str(text.as_str(), nl.as_str());
    let ghost pieces = split_spec(text@, seq!['\n']);
    proof {
        crate::stringops::lemma_split_pieces_len(text@, seq!['\n']);
    }
    let cr = String::from_str("\r");
    proof {
        reveal_strlit("\r");
    }
    assert(cr@ =~= seq!['\r']);
    let mut result: Vec<String> = Vec::new();
    let mut i: usize = 0;
    assert(strings_view(result@) =~= pieces.take(0).map_values(|s: Seq<char>| line_of(s)));
    while i < list.len()
        invariant
            list@.map_values(|p: String| p@) == pieces,
            forall|k: int| 0 <= k < pieces.len() ==> (#[trigger] pieces[k]).len() <= text@.len(),
            text@.len() <= i32::MAX,
            cr@ == seq!['\r'],
            0 <= i <= list.len(),
            strings_view(result@) == pieces.take(i as int).map_values(|s: Seq<char>| line_of(s)),
        decreases list.len() - i,
    {
        let s = list[i].clone();
        assert(s@ == pieces[i as int]);
        let c = count(&s);
        let line = if ends_with(&s, cr.clone(), false) {
            proof {
                lemma_single_char_clusters(seq!['\r']);
            }
            substring(&s, 0, c - 1)
        } else {
            substring(&s, 0, c)
        };
        let ghost before = strings_view(result@);
        result.push(line);
        assert(strings_view(result@) =~= before.push(line_of(pieces[i as int])));
        assert(pieces.take(i as int + 1).map_values(|s: Seq<char>| line_of(s)) =~= pieces.take(
            i as int,
        ).map_values(|s: Seq<char>| line_of(s)).push(line_of(pieces[i as int])));
        i += 1;
    }
    assert(pieces.take(list.len() as int) =~= pieces);
    result
}

} // verus!
