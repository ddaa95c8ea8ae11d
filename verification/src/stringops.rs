//! String operations that count, search and cut strings by extended grapheme clusters.

use crate::unicode::{
    char_is_alphabetic, char_is_alphanumeric, char_is_numeric, glen, grapheme_list, seg_facts,
    spec_char_is_alphabetic, spec_char_is_alphanumeric, spec_char_is_numeric, spec_graphemes,
    spec_to_uppercase, strings_view, to_uppercase,
};
use crate::split::{split_spec, split_str};
use rand::Rng;
use vstd::prelude::*;

verus! {

/// A whitespace grapheme: a space, a tab, a carriage return, a line feed, or CR LF.
pub open spec fn is_ws(g: Seq<char>) -> bool {
    ||| g == seq![' ']
    ||| g == seq!['\t']
    ||| g == seq!['\r']
    ||| g == seq!['\n']
    ||| g == seq!['\r', '\n']
}

/// The clusters left after dropping the leading whitespace clusters.
pub open spec fn skip_leading_ws(g: Seq<Seq<char>>) -> Seq<Seq<char>>
    decreases g.len(),
{
    if g.len() > 0 && is_ws(g[0]) {
        skip_leading_ws(g.drop_first())
    } else {
        g
    }
}

/// The clusters left after dropping the trailing whitespace clusters.
pub open spec fn skip_trailing_ws(g: Seq<Seq<char>>) -> Seq<Seq<char>>
    decreases g.len(),
{
    if g.len() > 0 && is_ws(g.last()) {
        skip_trailing_ws(g.drop_last())
    } else {
        g
    }
}

/// `s` without its leading whitespace clusters.
pub open spec fn spec_ltrim(s: Seq<char>) -> Seq<char> {
    skip_leading_ws(spec_graphemes(s)).flatten()
}

/// `s` without its trailing whitespace clusters.
pub open spec fn spec_rtrim(s: Seq<char>) -> Seq<char> {
    skip_trailing_ws(spec_graphemes(s)).flatten()
}

/// The clusters `[a, b)` of `g`, concatenated.
pub open spec fn flat_range(g: Seq<Seq<char>>, a: int, b: int) -> Seq<char> {
    g.subrange(a, b).flatten()
}

pub proof fn lemma_flat_range_push(g: Seq<Seq<char>>, a: int, b: int)
    requires
        0 <= a <= b < g.len(),
    ensures
        flat_range(g, a, b + 1) == flat_range(g, a, b) + g[b],
{
    assert(g.subrange(a, b + 1) == g.subrange(a, b).push(g[b]));
    g.subrange(a, b).lemma_flatten_push(g[b]);
}

pub proof fn lemma_flat_range_prepend(g: Seq<Seq<char>>, a: int, b: int)
    requires
        0 < a <= b <= g.len(),
    ensures
        flat_range(g, a - 1, b) == g[a - 1] + flat_range(g, a, b),
{
    let s = g.subrange(a - 1, b);
    assert(s.len() > 0);
    assert(s.drop_first() == g.subrange(a, b));
    assert(s.first() == g[a - 1]);
}

proof fn lemma_skip_leading(g: Seq<Seq<char>>, k: int)
    requires
        0 <= k <= g.len(),
        forall|j: int| 0 <= j < k ==> is_ws(#[trigger] g[j]),
        k == g.len() || !is_ws(g[k]),
    ensures
        skip_leading_ws(g) == g.skip(k),
    decreases k,
{
    if k > 0 {
        let r = g.drop_first();
        assert forall|j: int| 0 <= j < k - 1 implies is_ws(#[trigger] r[j]) by {
            assert(r[j] == g[j + 1]);
        }
        if k - 1 < r.len() {
            assert(r[k - 1] == g[k]);
        }
        lemma_skip_leading(r, k - 1);
        assert(r.skip(k - 1) == g.skip(k));
    } else {
        assert(g.skip(0) == g);
    }
}

proof fn lemma_skip_trailing(g: Seq<Seq<char>>, k: int)
    requires
        0 <= k <= g.len(),
        forall|j: int| k <= j < g.len() ==> is_ws(#[trigger] g[j]),
        k == 0 || !is_ws(g[k - 1]),
    ensures
        skip_trailing_ws(g) == g.take(k),
    decreases g.len() - k,
{
    if k < g.len() {
        let r = g.drop_last();
        assert forall|j: int| k <= j < r.len() implies is_ws(#[trigger] r[j]) by {
            assert(r[j] == g[j]);
        }
        if k > 0 {
            assert(r[k - 1] == g[k - 1]);
        }
        assert(g.last() == g[g.len() - 1]);
        lemma_skip_trailing(r, k);
        assert(r.take(k) == g.take(k));
    } else {
        assert(g.take(k) == g);
    }
}

/// Tells whether a grapheme (or any string) is one of " ", "\t", "\r", "\n", "\r\n".
fn ws_text(g: &String) -> (r: bool)
    ensures
        r == is_ws(g@),
{
    let s = g.as_str();
    let n = s.unicode_len();
    if n == 1 {
        let c = s.get_char(0);
        let r = c == ' ' || c == '\t' || c == '\r' || c == '\n';
        proof {
            if r {
                assert(g@ =~= seq![c]);
            }
        }
        r
    } else if n == 2 {
        let r = s.get_char(0) == '\r' && s.get_char(1) == '\n';
        proof {
            if r {
                assert(g@ =~= seq!['\r', '\n']);
            }
        }
        r
    } else {
        false
    }
}

/// The number of grapheme clusters of `str`, cast to `i32`.
pub fn count(str: &String) -> (r: i32)
    ensures
        r == glen(str@) as i32,
        seg_facts(str@),
        glen(str@) <= str@.len(),
{
    let g = grapheme_list(str.as_str());
    g.len() as i32
}

/// `str` without its leading whitespace clusters (" ", "\t", "\r", "\n", "\r\n").
pub fn ltrim(str: String) -> (r: String)
    requires
        str@.len() <= i32::MAX,
    ensures
        r@ == spec_ltrim(str@),
        seg_facts(str@),
{
    let gs = grapheme_list(str.as_str());
    let ghost g = spec_graphemes(str@);
    let count = gs.len() as i32;
    let mut i: i32 = 0;
    let mut start = true;
    let mut output = String::new();
    let ghost mut k: int = 0;
    while i < count
        invariant
            strings_view(gs@) == g,
            count == g.len(),
            0 <= i <= count,
            0 <= k <= i,
            forall|j: int| 0 <= j < k ==> is_ws(#[trigger] g[j]),
            start ==> k == i,
            !start ==> k < i && !is_ws(g[k]),
            output@ == flat_range(g, k, i as int),
        decreases count - i,
    {
        let c = &gs[i as usize];
        assert(c@ == g[i as int]);
        if start && ws_text(c) {
            proof {
                k = k + 1;
            }
            i = i + 1;
            assert(g.subrange(k, i as int) =~= Seq::<Seq<char>>::empty());
            continue;
        } else {
            proof {
                lemma_flat_range_push(g, k, i as int);
            }
            output.append(c.as_str());
            start = false;
        }
        i = i + 1;
    }
    proof {
        lemma_skip_leading(g, k);
        assert(g.subrange(k, g.len() as int) == g.skip(k));
    }
    output
}

/// `str` without its trailing whitespace clusters (" ", "\t", "\r", "\n", "\r\n").
pub fn rtrim(str: String) -> (r: String)
    requires
        str@.len() <= i32::MAX,
    ensures
        r@ == spec_rtrim(str@),
        seg_facts(str@),
{
    let gs = grapheme_list(str.as_str());
    let ghost g = spec_graphemes(str@);
    let count = gs.len() as i32;
    let mut i: i32 = 0;
    let mut start = true;
    let mut output = String::new();
    // `k` is the end of the kept clusters; clusters are taken from the back.
    let ghost mut k: int = g.len() as int;
    while i < count
        invariant
            strings_view(gs@) == g,
            count == g.len(),
            0 <= i <= count,
            count - i <= k <= count,
            forall|j: int| k <= j < count ==> is_ws(#[trigger] g[j]),
            start ==> k == count - i,
            !start ==> k > count - i && !is_ws(g[k - 1]),
            output@ == flat_range(g, count - i, k),
        decreases count - i,
    {
        let idx = (count - 1 - i) as usize;
        let c = &gs[idx];
        assert(c@ == g[idx as int]);
        if start && ws_text(c) {
            proof {
                k = k - 1;
            }
            i = i + 1;
            assert(g.subrange(count - i, k) =~= Seq::<Seq<char>>::empty());
            continue;
        } else {
            proof {
                lemma_flat_range_prepend(g, idx as int + 1, k);
            }
            output = c.clone().concat(output.as_str());
            start = false;
        }
        i = i + 1;
    }
    proof {
        lemma_skip_trailing(g, k);
        assert(g.subrange(0, k) == g.take(k));
    }
    output
}

/// `str` without leading and then trailing whitespace clusters; the trailing ones are
/// found by segmenting the left-trimmed string anew.
pub fn trim(str: String) -> (r: String)
    requires
        str@.len() <= i32::MAX,
    ensures
        r@ == spec_rtrim(spec_ltrim(str@)),
{
    let mut result = str.clone();
    result = ltrim(result);
    proof {
        lemma_ltrim_len(str@);
    }
    result = rtrim(result);
    result
}

/// A left-trimmed string is a suffix of the string.
pub proof fn lemma_ltrim_suffix(s: Seq<char>)
    requires
        seg_facts(s),
    ensures
        spec_ltrim(s).is_suffix_of(s),
{
    let g = spec_graphemes(s);
    lemma_skip_leading_is_skip(g);
    let k = choose|k: int| 0 <= k <= g.len() && skip_leading_ws(g) == g.skip(k);
    assert(g == g.take(k) + g.skip(k));
    vstd::seq_lib::lemma_flatten_concat(g.take(k), g.skip(k));
}

proof fn lemma_skip_leading_is_skip(g: Seq<Seq<char>>)
    ensures
        exists|k: int| 0 <= k <= g.len() && skip_leading_ws(g) == g.skip(k),
    decreases g.len(),
{
    if g.len() > 0 && is_ws(g[0]) {
        lemma_skip_leading_is_skip(g.drop_first());
        let k = choose|k: int| 0 <= k <= g.drop_first().len() && skip_leading_ws(g.drop_first()) == g.drop_first().skip(k);
        assert(g.drop_first().skip(k) == g.skip(k + 1));
    } else {
        assert(g.skip(0) == g);
    }
}

proof fn lemma_ltrim_len(s: Seq<char>)
    requires
        seg_facts(s),
    ensures
        spec_ltrim(s).len() <= s.len(),
{
    lemma_ltrim_suffix(s);
}


/// Two clusters are the same, or, when `ic` holds, have the same upper-case mapping.
pub open spec fn geq(ic: bool, a: Seq<char>, b: Seq<char>) -> bool {
    (ic && spec_to_uppercase(a) == spec_to_uppercase(b)) || a == b
}

/// Compares two clusters as `geq` says.
fn grapheme_eq(ic: bool, c: &String, d: &String) -> (r: bool)
    ensures
        r == geq(ic, c@, d@),
{
    if ic {
        let cu = to_uppercase(c.as_str());
        let du = to_uppercase(d.as_str());
        if cu == du {
            return true;
        }
    }
    *c == *d
}

/// `sub` matches the first clusters of `g`, cluster by cluster.
pub open spec fn prefix_match(ic: bool, g: Seq<Seq<char>>, sub: Seq<Seq<char>>) -> bool {
    &&& sub.len() <= g.len()
    &&& forall|k: int| 0 <= k < sub.len() ==> geq(ic, #[trigger] sub[k], g[k])
}

/// `sub` matches the last clusters of `g`, cluster by cluster.
pub open spec fn suffix_match(ic: bool, g: Seq<Seq<char>>, sub: Seq<Seq<char>>) -> bool {
    &&& sub.len() <= g.len()
    &&& forall|k: int|
        0 <= k < sub.len() ==> geq(ic, #[trigger] sub[sub.len() - 1 - k], g[g.len() - 1 - k])
}

pub open spec fn spec_starts_with(s: Seq<char>, sub: Seq<char>, ic: bool) -> bool {
    prefix_match(ic, spec_graphemes(s), spec_graphemes(sub))
}

pub open spec fn spec_ends_with(s: Seq<char>, sub: Seq<char>, ic: bool) -> bool {
    suffix_match(ic, spec_graphemes(s), spec_graphemes(sub))
}

/// Whether the clusters of `str` begin with those of `sub`.
pub fn starts_with(str: &String, sub: String, ignore_case: bool) -> (r: bool)
    ensures
        r == spec_starts_with(str@, sub@, ignore_case),
        seg_facts(str@),
        seg_facts(sub@),
{
    let subs = grapheme_list(sub.as_str());
    let strs = grapheme_list(str.as_str());
    let ghost g = spec_graphemes(str@);
    let ghost sg = spec_graphemes(sub@);
    let sc = subs.len();
    let stc = strs.len();
    if sc > stc {
        return false;
    }
    let mut i: usize = 0;
    while i < sc
        invariant
            strings_view(subs@) == sg,
            strings_view(strs@) == g,
            sc == sg.len(),
            stc == g.len(),
            sc <= stc,
            0 <= i <= sc,
            seg_facts(str@),
            seg_facts(sub@),
            g == spec_graphemes(str@),
            sg == spec_graphemes(sub@),
            forall|k: int| 0 <= k < i ==> geq(ignore_case, #[trigger] sg[k], g[k]),
        decreases sc - i,
    {
        assert(subs@[i as int]@ == sg[i as int]);
        assert(strs@[i as int]@ == g[i as int]);
        if grapheme_eq(ignore_case, &subs[i], &strs[i]) {
            i += 1;
        } else {
            assert(!geq(ignore_case, sg[i as int], g[i as int]));
            return false;
        }
    }
    true
}

/// Whether the clusters of `str` end with those of `sub`.
pub fn ends_with(str: &String, sub: String, ignore_case: bool) -> (r: bool)
    ensures
        r == spec_ends_with(str@, sub@, ignore_case),
        seg_facts(str@),
        seg_facts(sub@),
{
    let subs = grapheme_list(sub.as_str());
    let strs = grapheme_list(str.as_str());
    let ghost g = spec_graphemes(str@);
    let ghost sg = spec_graphemes(sub@);
    let sc = subs.len();
    let stc = strs.len();
    if sc > stc {
        return false;
    }
    let mut i: usize = 0;
    while i < sc
        invariant
            strings_view(subs@) == sg,
            strings_view(strs@) == g,
            sc == sg.len(),
            stc == g.len(),
            sc <= stc,
            0 <= i <= sc,
            seg_facts(str@),
            seg_facts(sub@),
            g == spec_graphemes(str@),
            sg == spec_graphemes(sub@),
            forall|k: int|
                0 <= k < i ==> geq(ignore_case, #[trigger] sg[sc - 1 - k], g[stc - 1 - k]),
        decreases sc - i,
    {
        assert(subs@[sc - 1 - i]@ == sg[sc - 1 - i]);
        assert(strs@[stc - 1 - i]@ == g[stc - 1 - i]);
        if grapheme_eq(ignore_case, &subs[sc - 1 - i], &strs[stc - 1 - i]) {
            i += 1;
        } else {
            assert(!geq(ignore_case, sg[sc - 1 - i], g[stc - 1 - i]));
            return false;
        }
    }
    true
}

/// One step of the matcher: the number of pattern clusters matched after reading `c`,
/// given `cnt` matched before. On a mismatch the matcher starts over at `c` alone.
pub open spec fn step(ic: bool, sub: Seq<Seq<char>>, cnt: int, c: Seq<char>) -> int {
    if geq(ic, c, sub[cnt]) {
        cnt + 1
    } else if geq(ic, c, sub[0]) {
        1
    } else {
        0
    }
}

/// Reads `t` from position `k` with `cnt` pattern clusters matched; the number of clusters
/// of `t` read when the whole pattern is matched, or -1 when `t` ends first.
pub open spec fn scan(ic: bool, t: Seq<Seq<char>>, sub: Seq<Seq<char>>, k: int, cnt: int) -> int
    decreases t.len() - k,
{
    if k < 0 || k >= t.len() {
        -1
    } else {
        let c2 = step(ic, sub, cnt, t[k]);
        if c2 == sub.len() {
            k + 1
        } else {
            scan(ic, t, sub, k + 1, c2)
        }
    }
}

/// Forward search of the clusters `sub` in `g` from cluster `start`.
pub open spec fn index_of_gs(ic: bool, g: Seq<Seq<char>>, sub: Seq<Seq<char>>, start: int) -> int {
    let sc = sub.len() as int;
    let stc = g.len() as int;
    if sc > stc {
        -1
    } else if sc == 0 {
        0
    } else if start + sc > stc {
        -1
    } else {
        let n = scan(ic, g.skip(if start > 0 { start } else { 0 }), sub, 0, 0);
        if n < 0 {
            -1
        } else {
            n - sc + start
        }
    }
}

/// Backward search of the clusters `sub` in `g`: the matcher reads both reversed.
pub open spec fn last_index_of_gs(ic: bool, g: Seq<Seq<char>>, sub: Seq<Seq<char>>) -> int {
    let sc = sub.len() as int;
    let stc = g.len() as int;
    if sc > stc {
        -1
    } else if sc == 0 {
        0
    } else {
        let n = scan(ic, g.reverse(), sub.reverse(), 0, 0);
        if n < 0 {
            -1
        } else {
            stc - n
        }
    }
}

pub open spec fn spec_index_of(s: Seq<char>, sub: Seq<char>, start: int, ic: bool) -> int {
    index_of_gs(ic, spec_graphemes(s), spec_graphemes(sub), start)
}

pub open spec fn spec_last_index_of(s: Seq<char>, sub: Seq<char>, ic: bool) -> int {
    last_index_of_gs(ic, spec_graphemes(s), spec_graphemes(sub))
}

/// A completed scan has read at least the pattern and at most the text.
pub proof fn lemma_scan_bounds(ic: bool, t: Seq<Seq<char>>, sub: Seq<Seq<char>>, k: int, cnt: int)
    requires
        0 <= k,
        0 <= cnt <= k,
        cnt < sub.len(),
    ensures
        scan(ic, t, sub, k, cnt) == -1 || (sub.len() <= scan(ic, t, sub, k, cnt) <= t.len()),
    decreases t.len() - k,
{
    if k < t.len() {
        let c2 = step(ic, sub, cnt, t[k]);
        if c2 != sub.len() {
            lemma_scan_bounds(ic, t, sub, k + 1, c2);
        }
    }
}

/// Where a forward search succeeds, the match lies inside the text at or after `start`.
pub proof fn lemma_index_of_bounds(ic: bool, g: Seq<Seq<char>>, sub: Seq<Seq<char>>, start: int)
    ensures
        ({
            let r = index_of_gs(ic, g, sub, start);
            &&& sub.len() == 0 ==> r == 0
            &&& sub.len() > 0 ==> (r == -1 || (r >= start && r + sub.len() <= g.len()))
        }),
{
    if sub.len() > 0 && sub.len() <= g.len() && start + sub.len() <= g.len() {
        let a = if start > 0 { start } else { 0 };
        lemma_scan_bounds(ic, g.skip(a), sub, 0, 0);
    }
}

/// Where a backward search succeeds, the match lies inside the text.
pub proof fn lemma_last_index_of_bounds(ic: bool, g: Seq<Seq<char>>, sub: Seq<Seq<char>>)
    ensures
        ({
            let r = last_index_of_gs(ic, g, sub);
            &&& sub.len() == 0 ==> r == 0
            &&& sub.len() > 0 ==> (r == -1 || (r >= 0 && r + sub.len() <= g.len()))
        }),
{
    if sub.len() > 0 && sub.len() <= g.len() {
        lemma_scan_bounds(ic, g.reverse(), sub.reverse(), 0, 0);
    }
}

/// The cluster position of the first match of `sub` in `str` at or after cluster
/// `start_index`, found by a matcher that restarts at the current cluster after a mismatch;
/// 0 when `sub` is empty, -1 when nothing is found.
pub fn index_of(str: &String, sub: String, start_index: i32, ignore_case: bool) -> (r: i32)
    requires
        str@.len() <= i32::MAX,
    ensures
        r == spec_index_of(str@, sub@, start_index as int, ignore_case),
        seg_facts(str@),
        seg_facts(sub@),
        glen(str@) <= str@.len(),
{
    let subs = grapheme_list(sub.as_str());
    let strs = grapheme_list(str.as_str());
    let ghost g = spec_graphemes(str@);
    let ghost sg = spec_graphemes(sub@);
    let sc = subs.len();
    let stc = strs.len();
    if sc > stc {
        return -1;
    }
    if sc == 0 {
        return 0;
    }
    if start_index as i64 + sc as i64 > stc as i64 {
        return -1;
    }
    let skip: usize = if start_index > 0 { start_index as usize } else { 0 };
    let ghost t = g.skip(skip as int);
    let mut k: usize = skip;
    let mut cnt: usize = 0;
    let mut found = false;
    while k < stc && !found
        invariant
            strings_view(subs@) == sg,
            strings_view(strs@) == g,
            sc == sg.len(),
            stc == g.len(),
            0 < sc <= stc,
            skip <= k <= stc,
            t == g.skip(skip as int),
            !found ==> cnt < sc && scan(ignore_case, t, sg, 0, 0) == scan(
                ignore_case,
                t,
                sg,
                k - skip,
                cnt as int,
            ),
            found ==> scan(ignore_case, t, sg, 0, 0) == k - skip,
        decreases stc - k,
    {
        let c = &strs[k];
        assert(c@ == g[k as int]);
        assert(t[k - skip] == g[k as int]);
        assert(subs@[cnt as int]@ == sg[cnt as int]);
        assert(subs@[0]@ == sg[0]);
        let cnt2 = if grapheme_eq(ignore_case, c, &subs[cnt]) {
            cnt + 1
        } else if grapheme_eq(ignore_case, c, &subs[0]) {
            1
        } else {
            0
        };
        k = k + 1;
        if cnt2 == sc {
            found = true;
        }
        cnt = cnt2;
    }
    if found {
        proof {
            lemma_scan_bounds(ignore_case, t, sg, 0, 0);
        }
        ((k - skip) as i32) - (sc as i32) + start_index
    } else {
        -1
    }
}

/// The cluster position of the last match of `sub` in `str`, found by matching both
/// backwards with a matcher that restarts at the current cluster after a mismatch;
/// 0 when `sub` is empty, -1 when nothing is found.
pub fn last_index_of(str: &String, sub: String, ignore_case: bool) -> (r: i32)
    requires
        str@.len() <= i32::MAX,
    ensures
        r == spec_last_index_of(str@, sub@, ignore_case),
        seg_facts(str@),
        seg_facts(sub@),
        glen(str@) <= str@.len(),
{
    let subs = grapheme_list(sub.as_str());
    let strs = grapheme_list(str.as_str());
    let ghost g = spec_graphemes(str@);
    let ghost sg = spec_graphemes(sub@);
    let sc = subs.len();
    let stc = strs.len();
    if sc > stc {
        return -1;
    }
    if sc == 0 {
        return 0;
    }
    let ghost t = g.reverse();
    let ghost ts = sg.reverse();
    let mut k: usize = 0;
    let mut cnt: usize = 0;
    let mut found = false;
    while k < stc && !found
        invariant
            strings_view(subs@) == sg,
            strings_view(strs@) == g,
            sc == sg.len(),
            stc == g.len(),
            0 < sc <= stc,
            0 <= k <= stc,
            t == g.reverse(),
            ts == sg.reverse(),
            !found ==> cnt < sc && scan(ignore_case, t, ts, 0, 0) == scan(
                ignore_case,
                t,
                ts,
                k as int,
                cnt as int,
            ),
            found ==> scan(ignore_case, t, ts, 0, 0) == k,
        decreases stc - k,
    {
        let c = &strs[stc - 1 - k];
        assert(c@ == g[stc - 1 - k]);
        assert(t[k as int] == g[stc - 1 - k]);
        assert(subs@[sc - 1 - cnt]@ == sg[sc - 1 - cnt]);
        assert(ts[cnt as int] == sg[sc - 1 - cnt]);
        assert(subs@[sc - 1]@ == sg[sc - 1]);
        assert(ts[0] == sg[sc - 1]);
        let cnt2 = if grapheme_eq(ignore_case, c, &subs[sc - 1 - cnt]) {
            cnt + 1
        } else if grapheme_eq(ignore_case, c, &subs[sc - 1]) {
            1
        } else {
            0
        };
        k = k + 1;
        if cnt2 == sc {
            found = true;
        }
        cnt = cnt2;
    }
    if found {
        proof {
            lemma_scan_bounds(ignore_case, t, ts, 0, 0);
        }
        (stc - k) as i32
    } else {
        -1
    }
}

/// The clusters that `substring` takes: `count` of them from position `i` (from 0 when `i`
/// is negative), as many as there are; none when `count` is not positive.
pub open spec fn substring_gs(g: Seq<Seq<char>>, i: int, count: int) -> Seq<Seq<char>> {
    if count <= 0 {
        Seq::empty()
    } else {
        let a = if i > 0 { i } else { 0 };
        let b = if a + count < g.len() { a + count } else { g.len() as int };
        g.subrange(a, b)
    }
}

pub open spec fn spec_substring(s: Seq<char>, i: int, count: int) -> Seq<char> {
    substring_gs(spec_graphemes(s), i, count).flatten()
}

/// The clusters `[i, i + count)` of `str`, concatenated. When `i + count` passes the
/// number of clusters the cut would go out of range; that input is left out.
pub fn substring(str: &String, i: i32, count: i32) -> (r: String)
    requires
        i32::MIN <= i + count <= glen(str@),
    ensures
        r@ == spec_substring(str@, i as int, count as int),
        seg_facts(str@),
        r@.len() <= str@.len(),
{
    let strs = grapheme_list(str.as_str());
    let ghost g = spec_graphemes(str@);
    let stc = strs.len();
    let mut result = String::new();
    if count <= 0 {
        assert(substring_gs(g, i as int, count as int) =~= Seq::<Seq<char>>::empty());
        return result;
    }
    let a: usize = if i > 0 { i as usize } else { 0 };
    let b: usize = if (count as usize) < stc - a { a + count as usize } else { stc };
    let mut j: usize = a;
    assert(g.subrange(a as int, a as int) =~= Seq::<Seq<char>>::empty());
    while j < b
        invariant
            strings_view(strs@) == g,
            stc == g.len(),
            a <= j <= b <= stc,
            result@ == flat_range(g, a as int, j as int),
        decreases b - j,
    {
        assert(strs@[j as int]@ == g[j as int]);
        proof {
            lemma_flat_range_push(g, a as int, j as int);
        }
        result.append(strs[j].as_str());
        j = j + 1;
    }
    proof {
        lemma_flat_range_len(g, str@, a as int, b as int);
    }
    result
}

/// A run of clusters of a segmentation is no longer than the segmented sequence.
pub proof fn lemma_flat_range_len(g: Seq<Seq<char>>, s: Seq<char>, a: int, b: int)
    requires
        g.flatten() == s,
        0 <= a <= b <= g.len(),
    ensures
        flat_range(g, a, b).len() <= s.len(),
{
    assert(g == g.take(a) + g.subrange(a, b) + g.skip(b));
    vstd::seq_lib::lemma_flatten_concat(g.take(a) + g.subrange(a, b), g.skip(b));
    vstd::seq_lib::lemma_flatten_concat(g.take(a), g.subrange(a, b));
}


/// The state of `between` between two clusters: whether the start marker has been seen,
/// the matched count, the position in the end marker, the text kept, the text held back
/// while the end marker may be matching, and the texts found so far.
pub type BetweenState = (bool, int, int, Seq<char>, Seq<char>, Seq<Seq<char>>);

/// `between` reading one more cluster `c`; the flag tells that `limit` texts were found.
pub open spec fn between_step(
    ic: bool,
    sm: Seq<Seq<char>>,
    em: Seq<Seq<char>>,
    limit: i32,
    st: BetweenState,
    c: Seq<char>,
) -> (BetweenState, bool) {
    let (started, m, pe, temp, temp2, out) = st;
    let sc = sm.len() as int;
    let ec = em.len() as int;
    if !started {
        if sc == 0 {
            (st, false)
        } else if geq(ic, c, sm[m]) {
            if m + 1 == sc {
                ((true, 0, pe, temp, temp2, out), false)
            } else {
                ((false, m + 1, pe, temp, temp2, out), false)
            }
        } else {
            ((false, 0, pe, temp, temp2, out), false)
        }
    } else {
        let (m1, pe1, t1, t21) = if ec == 0 {
            (m, 0, temp, temp2)
        } else {
            let e = if pe < ec { em[pe] } else { em[0] };
            let pe_a = if pe < ec { pe + 1 } else { 1 };
            if geq(ic, c, e) {
                (m + 1, pe_a, temp, temp2 + e)
            } else if geq(ic, c, em[0]) {
                (1, pe_a, temp + temp2, em[0])
            } else {
                (0, 0, temp + temp2 + c, Seq::<char>::empty())
            }
        };
        if m1 == ec {
            let out2 = out.push(t1);
            if limit > 0 && (out2.len() as i32) >= limit {
                ((true, 0, 0, t1, Seq::<char>::empty(), out2), true)
            } else {
                ((false, 0, 0, Seq::<char>::empty(), Seq::<char>::empty(), out2), false)
            }
        } else {
            ((true, m1, pe1, t1, t21, out), false)
        }
    }
}

/// `between` reading the clusters of `g` from position `k` on.
pub open spec fn between_run(
    ic: bool,
    sm: Seq<Seq<char>>,
    em: Seq<Seq<char>>,
    limit: i32,
    g: Seq<Seq<char>>,
    k: int,
    st: BetweenState,
) -> Seq<Seq<char>>
    decreases g.len() - k,
{
    if k < 0 || k >= g.len() {
        st.5
    } else {
        let (st2, stop) = between_step(ic, sm, em, limit, st, g[k]);
        if stop {
            st2.5
        } else {
            between_run(ic, sm, em, limit, g, k + 1, st2)
        }
    }
}

pub open spec fn spec_between(s: Seq<char>, start: Seq<char>, end: Seq<char>, limit: i32, ic: bool) -> Seq<
    Seq<char>,
> {
    between_run(
        ic,
        spec_graphemes(start),
        spec_graphemes(end),
        limit,
        spec_graphemes(s),
        0,
        (false, 0, 0, Seq::empty(), Seq::empty(), Seq::empty()),
    )
}

/// The texts that follow each match of `start` up to the next match of `end`, read cluster
/// by cluster with restarting matchers; at most `limit` of them when `limit` is positive.
pub fn between(str: &String, start: String, end: String, limit: i32, ignore_case: bool) -> (r: Vec<String>)
    ensures
        strings_view(r@) == spec_between(str@, start@, end@, limit, ignore_case),
        seg_facts(str@),
        seg_facts(end@),
{
    let strs = grapheme_list(str.as_str());
    let starts = grapheme_list(start.as_str());
    let ends = grapheme_list(end.as_str());
    let ghost g = spec_graphemes(str@);
    let ghost sm = spec_graphemes(start@);
    let ghost em = spec_graphemes(end@);
    let sc = starts.len();
    let ec = ends.len();
    let n = strs.len();
    let mut result: Vec<String> = Vec::new();
    let mut started = false;
    let mut m: usize = 0;
    let mut pe: usize = 0;
    let mut temp = String::new();
    let mut temp2 = String::new();
    let mut k: usize = 0;
    let ghost st0: BetweenState = (false, 0, 0, Seq::empty(), Seq::empty(), Seq::empty());
    assert(strings_view(result@) =~= Seq::<Seq<char>>::empty());
    while k < n
        invariant
            strings_view(strs@) == g,
            strings_view(starts@) == sm,
            strings_view(ends@) == em,
            n == g.len(),
            sc == sm.len(),
            ec == em.len(),
            0 <= k <= n,
            !started ==> (sc == 0 && m == 0) || m < sc,
            started ==> m < ec || (ec == 0 && m == 0),
            pe <= ec,
            g == spec_graphemes(str@),
            sm == spec_graphemes(start@),
            em == spec_graphemes(end@),
            seg_facts(str@),
            seg_facts(end@),
            st0 == (false, 0int, 0int, Seq::<char>::empty(), Seq::<char>::empty(), Seq::<Seq<char>>::empty()),
            between_run(ignore_case, sm, em, limit, g, 0, st0) == between_run(
                ignore_case,
                sm,
                em,
                limit,
                g,
                k as int,
                (started, m as int, pe as int, temp@, temp2@, strings_view(result@)),
            ),
        decreases n - k,
    {
        let c = &strs[k];
        assert(c@ == g[k as int]);
        let ghost stb: BetweenState = (started, m as int, pe as int, temp@, temp2@, strings_view(result@));
        if !started {
            if sc == 0 {
            } else {
                assert(starts@[m as int]@ == sm[m as int]);
                if grapheme_eq(ignore_case, c, &starts[m]) {
                    if m + 1 == sc {
                        started = true;
                        m = 0;
                    } else {
                        m = m + 1;
                    }
                } else {
                    m = 0;
                }
            }
            k = k + 1;
        } else {
            let mut m1: usize = m;
            let mut pe1: usize = 0;
            if ec == 0 {
            } else {
                let ei: usize = if pe < ec { pe } else { 0 };
                let pe_a: usize = if pe < ec { pe + 1 } else { 1 };
                assert(ends@[ei as int]@ == em[ei as int]);
                assert(ends@[0]@ == em[0]);
                if grapheme_eq(ignore_case, c, &ends[ei]) {
                    m1 = m + 1;
                    pe1 = pe_a;
                    temp2.append(ends[ei].as_str());
                } else if grapheme_eq(ignore_case, c, &ends[0]) {
                    m1 = 1;
                    pe1 = pe_a;
                    temp.append(temp2.as_str());
                    temp2 = ends[0].clone();
                } else {
                    m1 = 0;
                    pe1 = 0;
                    temp.append(temp2.as_str());
                    temp.append(c.as_str());
                    temp2 = String::new();
                }
            }
            if m1 == ec {
                let ghost before = strings_view(result@);
                let done = temp.clone();
                result.push(done);
                assert(strings_view(result@) =~= before.push(temp@));
                if limit > 0 && (result.len() as i32) >= limit {
                    proof {
                        let (st2, stop) = between_step(ignore_case, sm, em, limit, stb, g[k as int]);
                        assert(stop);
                        assert(st2.5 == strings_view(result@));
                        assert(between_run(ignore_case, sm, em, limit, g, k as int, stb) == st2.5);
                    }
                    return result;
                }
                started = false;
                m = 0;
                pe = 0;
                temp = String::new();
                temp2 = String::new();
            } else {
                m = m1;
                pe = pe1;
            }
            k = k + 1;
        }
        proof {
            let (st2, stop) = between_step(ignore_case, sm, em, limit, stb, g[k - 1]);
            assert(!stop);
            assert(st2 == (started, m as int, pe as int, temp@, temp2@, strings_view(result@)));
        }
    }
    result
}


/// `result` with the match of `rep` at cluster `i` replaced by `with`.
pub open spec fn replace_once(result: Seq<char>, rep: Seq<char>, with: Seq<char>, i: int) -> Seq<char> {
    let c = glen(result);
    let rl = glen(rep);
    let left = if i > 0 { spec_substring(result, 0, i) } else { Seq::empty() };
    let right = if i + rl < c { spec_substring(result, i + rl, c - (i + rl)) } else { Seq::empty() };
    left + with + right
}

/// The replacement loop run from search position `start` for at most `fuel` replacements:
/// the final text, or `None` when the loop needs more rounds, when the text outgrows the
/// `i32` positions, or when the next search position does not fit in an `i32`.
pub open spec fn replace_from(
    s: Seq<char>,
    rep: Seq<char>,
    with: Seq<char>,
    ic: bool,
    start: int,
    fuel: nat,
) -> Option<Seq<char>>
    decreases fuel,
{
    if s.len() > i32::MAX {
        None
    } else {
        let i = spec_index_of(s, rep, start, ic);
        if i < 0 {
            Some(s)
        } else if fuel == 0 {
            None
        } else if i + glen(with) > i32::MAX {
            None
        } else {
            replace_from(replace_once(s, rep, with, i), rep, with, ic, i + glen(with), (fuel - 1) as nat)
        }
    }
}

/// The replacement loop ends (it does not, for one, when `rep` has no clusters and `s` is
/// not empty).
pub open spec fn replace_terminates(s: Seq<char>, rep: Seq<char>, with: Seq<char>, ic: bool) -> bool {
    exists|n: nat| (#[trigger] replace_from(s, rep, with, ic, 0, n)) is Some
}

pub open spec fn replace_fuel(s: Seq<char>, rep: Seq<char>, with: Seq<char>, ic: bool) -> nat {
    choose|n: nat| (#[trigger] replace_from(s, rep, with, ic, 0, n)) is Some
}

pub open spec fn spec_replace(s: Seq<char>, rep: Seq<char>, with: Seq<char>, ic: bool) -> Seq<char> {
    replace_from(s, rep, with, ic, 0, replace_fuel(s, rep, with, ic))->0
}

/// The loop's outcome does not depend on how much room it was given.
pub proof fn lemma_replace_from_unique(
    s: Seq<char>,
    rep: Seq<char>,
    with: Seq<char>,
    ic: bool,
    start: int,
    n1: nat,
    n2: nat,
)
    requires
        replace_from(s, rep, with, ic, start, n1) is Some,
        replace_from(s, rep, with, ic, start, n2) is Some,
    ensures
        replace_from(s, rep, with, ic, start, n1) == replace_from(s, rep, with, ic, start, n2),
    decreases n1,
{
    let i = spec_index_of(s, rep, start, ic);
    if i >= 0 && n1 > 0 && n2 > 0 {
        lemma_replace_from_unique(
            replace_once(s, rep, with, i),
            rep,
            with,
            ic,
            i + glen(with),
            (n1 - 1) as nat,
            (n2 - 1) as nat,
        );
    }
}

/// The replacement loop; with a `limit` it stops after that many replacements and reports
/// whether it was done.
fn replace_core(
    str: &String,
    rep: &String,
    with: &String,
    ignore_case: bool,
    limit: Option<u32>,
    Ghost(fuel): Ghost<nat>,
) -> (r: (bool, String))
    requires
        with@.len() <= i32::MAX,
        rep@.len() <= i32::MAX,
        limit is Some ==> fuel == limit->0,
        limit is None ==> replace_from(str@, rep@, with@, ignore_case, 0, fuel) is Some,
    ensures
        r.0 <==> replace_from(str@, rep@, with@, ignore_case, 0, fuel) is Some,
        r.0 ==> r.1@ == replace_from(str@, rep@, with@, ignore_case, 0, fuel)->0,
{
    let mut result = str.clone();
    let mut start: i32 = 0;
    let with_len = count(with);
    let replace_len = count(rep);
    let mut rounds: u32 = match limit {
        Some(n) => n,
        None => 0,
    };
    let ghost mut f: nat = fuel;
    loop
        invariant
            with_len == glen(with@),
            replace_len == glen(rep@),
            limit is Some ==> rounds == f,
            limit is None ==> replace_from(result@, rep@, with@, ignore_case, start as int, f) is Some,
            replace_from(result@, rep@, with@, ignore_case, start as int, f) == replace_from(
                str@,
                rep@,
                with@,
                ignore_case,
                0,
                fuel,
            ),
        decreases f,
    {
        if result.as_str().unicode_len() > 2147483647usize {
            return (false, result);
        }
        let i = index_of(&result, rep.clone(), start, ignore_case);
        if i < 0 {
            return (true, result);
        }
        if limit.is_some() && rounds == 0 {
            return (false, result);
        }
        if (i as i64) + (with_len as i64) > 2147483647i64 {
            return (false, result);
        }
        proof {
            lemma_index_of_bounds(ignore_case, spec_graphemes(result@), spec_graphemes(rep@), start as int);
        }
        let c = count(&result);
        let mut left = String::new();
        if i > 0 {
            left = substring(&result, 0, i);
        }
        let mut right = String::new();
        if i + replace_len < c {
            right = substring(&result, i + replace_len, c - (i + replace_len));
        }
        let next = left.concat(with.as_str()).concat(right.as_str());
        assert(next@ == replace_once(result@, rep@, with@, i as int));
        result = next;
        start = i + with_len;
        if limit.is_some() {
            rounds = rounds - 1;
        }
        proof {
            f = (f - 1) as nat;
        }
    }
}

/// Deleting a match of at least one cluster shortens a segmented string.
proof fn lemma_delete_shrinks(s: Seq<char>, i: int, rl: int)
    requires
        seg_facts(s),
        0 <= i,
        rl >= 1,
        i + rl <= glen(s),
    ensures
        flat_range(spec_graphemes(s), 0, i).len() + flat_range(spec_graphemes(s), i + rl, glen(s)).len()
            < s.len(),
{
    let g = spec_graphemes(s);
    let c = glen(s);
    let a = g.subrange(0, i);
    let m = g.subrange(i, i + rl);
    let b = g.subrange(i + rl, c);
    assert(g =~= a + m + b);
    vstd::seq_lib::lemma_flatten_concat(a + m, b);
    vstd::seq_lib::lemma_flatten_concat(a, m);
    assert(m =~= seq![g[i]] + m.drop_first());
    vstd::seq_lib::lemma_flatten_concat(seq![g[i]], m.drop_first());
    seq![g[i]].lemma_flatten_one_element();
    assert(g[i].len() > 0);
}

/// The replacement loop with an empty replacement text and a pattern of at least one
/// cluster: every round deletes a match, so the text shortens and the loop ends.
fn replace_deleting(str: &String, rep: &String, ignore_case: bool) -> (r: String)
    requires
        str@.len() <= i32::MAX,
        rep@.len() <= i32::MAX,
        glen(rep@) >= 1,
    ensures
        replace_terminates(str@, rep@, Seq::empty(), ignore_case),
        r@ == spec_replace(str@, rep@, Seq::empty(), ignore_case),
{
    let ghost e: Seq<char> = Seq::empty();
    let empty = String::new();
    // segmenting "" shows that it has no clusters
    let _ = count(&empty);
    assert(empty@ == e);
    assert(glen(e) == 0);
    let mut result = str.clone();
    let mut start: i32 = 0;
    let replace_len = count(rep);
    let ghost mut rounds: nat = 0;
    loop
        invariant
            replace_len == glen(rep@),
            replace_len >= 1,
            glen(e) == 0,
            e == Seq::<char>::empty(),
            result@.len() <= str@.len(),
            str@.len() <= i32::MAX,
            rep@.len() <= i32::MAX,
            0 <= start,
            forall|k: nat|
                #![trigger replace_from(result@, rep@, e, ignore_case, start as int, k)]
                replace_from(result@, rep@, e, ignore_case, start as int, k) is Some ==> replace_from(
                    str@,
                    rep@,
                    e,
                    ignore_case,
                    0,
                    k + rounds,
                ) == replace_from(result@, rep@, e, ignore_case, start as int, k),
        decreases result@.len(),
    {
        let i = index_of(&result, rep.clone(), start, ignore_case);
        if i < 0 {
            proof {
                assert(replace_from(result@, rep@, e, ignore_case, start as int, 0) == Some(result@));
                assert(replace_from(str@, rep@, e, ignore_case, 0, 0 + rounds) == Some(result@));
                assert(replace_terminates(str@, rep@, e, ignore_case));
                lemma_replace_from_unique(
                    str@,
                    rep@,
                    e,
                    ignore_case,
                    0,
                    rounds,
                    replace_fuel(str@, rep@, e, ignore_case),
                );
            }
            return result;
        }
        proof {
            lemma_index_of_bounds(ignore_case, spec_graphemes(result@), spec_graphemes(rep@), start as int);
        }
        let c = count(&result);
        let mut left = String::new();
        if i > 0 {
            left = substring(&result, 0, i);
        }
        let mut right = String::new();
        if i + replace_len < c {
            right = substring(&result, i + replace_len, c - (i + replace_len));
        }
        let next = left.concat(right.as_str());
        proof {
            let g = spec_graphemes(result@);
            assert(next@ =~= replace_once(result@, rep@, e, i as int));
            lemma_delete_shrinks(result@, i as int, replace_len as int);
            if i > 0 {
                assert(substring_gs(g, 0, i as int) == g.subrange(0, i as int));
            } else {
                assert(g.subrange(0, 0) =~= Seq::<Seq<char>>::empty());
            }
            if i + replace_len < c {
                assert(substring_gs(g, i + replace_len, c - (i + replace_len)) == g.subrange(
                    i + replace_len,
                    c as int,
                ));
            } else {
                assert(g.subrange(i + replace_len, c as int) =~= Seq::<Seq<char>>::empty());
            }
            assert forall|k: nat|
                #![trigger replace_from(next@, rep@, e, ignore_case, i as int, k)]
                replace_from(next@, rep@, e, ignore_case, i as int, k) is Some implies replace_from(
                    str@,
                    rep@,
                    e,
                    ignore_case,
                    0,
                    k + rounds + 1,
                ) == replace_from(next@, rep@, e, ignore_case, i as int, k) by {
                assert(replace_from(result@, rep@, e, ignore_case, start as int, k + 1) == replace_from(
                    next@,
                    rep@,
                    e,
                    ignore_case,
                    i as int,
                    k,
                ));
                assert(k + 1 + rounds == k + rounds + 1);
            }
            rounds = rounds + 1;
        }
        result = next;
        start = i;
    }
}

/// Replaces, from the left, each match of `pattern` (found by `index_of` from just after the
/// previous replacement) with `with`. The loop need not end (for one, when `pattern` has no
/// clusters); such inputs are left out. It ends when it deletes, that is, when `with` is
/// empty and `pattern` has a cluster; otherwise its ending rests on how text is segmented
/// around an inserted `with`, and `replace_within` bounds its rounds.
pub fn replace(str: &String, pattern: String, with: String, ignore_case: bool) -> (r: String)
    requires
        with@.len() <= i32::MAX,
        pattern@.len() <= i32::MAX,
        replace_terminates(str@, pattern@, with@, ignore_case) || (str@.len() <= i32::MAX
            && with@.len() == 0 && glen(pattern@) >= 1),
    ensures
        replace_terminates(str@, pattern@, with@, ignore_case),
        r@ == spec_replace(str@, pattern@, with@, ignore_case),
{
    if with.as_str().unicode_len() == 0 && str.as_str().unicode_len() <= 2147483647usize && count(&pattern) >= 1 {
        assert(with@ == Seq::<char>::empty());
        return replace_deleting(str, &pattern, ignore_case);
    }
    let ghost n = replace_fuel(str@, pattern@, with@, ignore_case);
    let (_, out) = replace_core(str, &pattern, &with, ignore_case, None, Ghost(n));
    out
}

/// `replace` when its loop ends within `rounds` replacements; `None` otherwise.
pub fn replace_within(str: &String, pattern: String, with: String, ignore_case: bool, rounds: u32) -> (r: Option<
    String,
>)
    requires
        with@.len() <= i32::MAX,
        pattern@.len() <= i32::MAX,
    ensures
        r is Some <==> replace_from(str@, pattern@, with@, ignore_case, 0, rounds as nat) is Some,
        r is Some ==> r->0@ == spec_replace(str@, pattern@, with@, ignore_case),
        r is Some ==> r->0@ == replace_from(str@, pattern@, with@, ignore_case, 0, rounds as nat)->0,
{
    let (done, _) = replace_core(str, &pattern, &with, ignore_case, Some(rounds), Ghost(rounds as nat));
    if done {
        proof {
            assert(replace_terminates(str@, pattern@, with@, ignore_case));
            lemma_replace_from_unique(
                str@,
                pattern@,
                with@,
                ignore_case,
                0,
                rounds as nat,
                replace_fuel(str@, pattern@, with@, ignore_case),
            );
        }
        Some(replace(str, pattern, with, ignore_case))
    } else {
        None
    }
}


/// The platform's path separator, `std::path::MAIN_SEPARATOR_STR`. Trusted: it is "/" or
/// "\\"; which one depends on the platform the crate is built for ("\\" on Windows).
#[verifier::external_body]
fn main_separator() -> (r: String)
    ensures
        r@ == seq!['/'] || r@ == seq!['\\'],
{
    String::from(std::path::MAIN_SEPARATOR_STR)
}

/// The platform's path separator: "\\" on Windows, "/" elsewhere.
pub fn path_sep() -> (r: String)
    ensures
        r@ == seq!['/'] || r@ == seq!['\\'],
{
    main_separator()
}

/// The platform's line ending: "\r\n" where the path separator is "\\" (Windows), "\n"
/// elsewhere.
pub fn enter() -> (r: String)
    ensures
        r@ == seq!['\r', '\n'] || r@ == seq!['\n'],
{
    let sep = main_separator();
    let s = sep.as_str();
    if s.unicode_len() == 1 && s.get_char(0) == '\\' {
        let r = String::from_str("\r\n");
        proof {
            reveal_strlit("\r\n");
        }
        assert(r@ =~= seq!['\r', '\n']);
        r
    } else {
        let r = String::from_str("\n");
        proof {
            reveal_strlit("\n");
        }
        assert(r@ =~= seq!['\n']);
        r
    }
}

/// An ASCII letter or digit.
pub open spec fn is_ascii_alnum(c: char) -> bool {
    ||| ('A' <= c && c <= 'Z')
    ||| ('a' <= c && c <= 'z')
    ||| ('0' <= c && c <= '9')
}

/// Draws `n` characters from `rand_distr::Alphanumeric` with the thread's generator,
/// `rand::rng()`. Trusted: exactly `n` characters come out, each an ASCII letter or digit
/// (the distribution picks from "A-Za-z0-9"); which ones is left open.
#[verifier::external_body]
fn random_alphanumerics(n: usize) -> (r: String)
    ensures
        r@.len() == n,
        forall|k: int| 0 <= k < r@.len() ==> is_ascii_alnum(#[trigger] r@[k]),
{
    rand::rng().sample_iter(&rand_distr::Alphanumeric).take(n).map(char::from).collect()
}

/// A random string of `len` ASCII letters and digits. A negative `len`, taken as a `usize`,
/// would ask for about `usize::MAX` characters; that input is left out.
pub fn random_string(len: i32) -> (r: String)
    requires
        len >= 0,
    ensures
        r@.len() == len,
        forall|k: int| 0 <= k < r@.len() ==> is_ascii_alnum(#[trigger] r@[k]),
{
    random_alphanumerics(len as usize)
}

/// Whether `chrono::DateTime::parse_from_rfc3339` accepts the string.
pub uninterp spec fn spec_is_rfc3339(s: Seq<char>) -> bool;

/// Calls `chrono::DateTime::parse_from_rfc3339` and tells whether it returned `Ok`.
/// Trusted: the answer is the named one for `s`.
#[verifier::external_body]
fn parses_as_rfc3339(s: &str) -> (r: bool)
    ensures
        r == spec_is_rfc3339(s@),
{
    chrono::DateTime::parse_from_rfc3339(s).is_ok()
}

/// Whether `str` is an RFC 3339 date and time.
pub fn is_datetime(str: &String) -> (r: bool)
    ensures
        r == spec_is_rfc3339(str@),
{
    parses_as_rfc3339(str.as_str())
}

/// Whether `str` is one of " ", "\r", "\n", "\t", "\r\n".
pub fn is_whitespace(str: &String) -> (r: bool)
    ensures
        r == is_ws(str@),
{
    ws_text(str)
}

/// The character classes that `is_numeric`, `is_alphabetic` and `is_alphanumeric` test.
pub enum CharClass {
    Numeric,
    Alphabetic,
    Alphanumeric,
}

pub open spec fn in_class(cls: CharClass, c: char) -> bool {
    match cls {
        CharClass::Numeric => spec_char_is_numeric(c),
        CharClass::Alphabetic => spec_char_is_alphabetic(c),
        CharClass::Alphanumeric => spec_char_is_alphanumeric(c),
    }
}

/// Every character of every cluster of `g` is in the class.
pub open spec fn all_in_class(cls: CharClass, g: Seq<Seq<char>>) -> bool {
    forall|i: int, j: int| 0 <= i < g.len() && 0 <= j < g[i].len() ==> in_class(cls, #[trigger] g[i][j])
}

fn char_in_class(cls: &CharClass, c: char) -> (r: bool)
    ensures
        r == in_class(*cls, c),
{
    match cls {
        CharClass::Numeric => char_is_numeric(c),
        CharClass::Alphabetic => char_is_alphabetic(c),
        CharClass::Alphanumeric => char_is_alphanumeric(c),
    }
}

/// Walks the clusters of `str` and their characters, and stops at the first character
/// outside the class.
fn all_chars_in_class(str: &String, cls: CharClass) -> (r: bool)
    ensures
        r == all_in_class(cls, spec_graphemes(str@)),
{
    let gs = grapheme_list(str.as_str());
    let ghost g = spec_graphemes(str@);
    let n = gs.len();
    let mut i: usize = 0;
    while i < n
        invariant
            strings_view(gs@) == g,
            g == spec_graphemes(str@),
            n == g.len(),
            0 <= i <= n,
            forall|a: int, b: int| 0 <= a < i && 0 <= b < g[a].len() ==> in_class(cls, #[trigger] g[a][b]),
        decreases n - i,
    {
        let cs = gs[i].as_str();
        assert(cs@ == g[i as int]);
        let len = cs.unicode_len();
        let mut j: usize = 0;
        while j < len
            invariant
                cs@ == g[i as int],
                g == spec_graphemes(str@),
                len == cs@.len(),
                0 <= i < n,
                n == g.len(),
                0 <= j <= len,
                forall|b: int| 0 <= b < j ==> in_class(cls, #[trigger] g[i as int][b]),
            decreases len - j,
        {
            let c = cs.get_char(j);
            if !char_in_class(&cls, c) {
                assert(!in_class(cls, g[i as int][j as int]));
                return false;
            }
            j += 1;
        }
        assert forall|a: int, b: int| 0 <= a < i + 1 && 0 <= b < g[a].len() implies in_class(cls, #[trigger] g[a][b]) by {
            if a == i {
                assert(in_class(cls, g[i as int][b]));
            }
        }
        i += 1;
    }
    true
}

/// Whether every character of `str` is numeric (`char::is_numeric`).
pub fn is_numeric(str: &String) -> (r: bool)
    ensures
        r == all_in_class(CharClass::Numeric, spec_graphemes(str@)),
{
    all_chars_in_class(str, CharClass::Numeric)
}

/// Whether every character of `str` is alphabetic (`char::is_alphabetic`).
pub fn is_alphabetic(str: &String) -> (r: bool)
    ensures
        r == all_in_class(CharClass::Alphabetic, spec_graphemes(str@)),
{
    all_chars_in_class(str, CharClass::Alphabetic)
}

/// Whether every character of `str` is alphanumeric (`char::is_alphanumeric`).
pub fn is_alphanumeric(str: &String) -> (r: bool)
    ensures
        r == all_in_class(CharClass::Alphanumeric, spec_graphemes(str@)),
{
    all_chars_in_class(str, CharClass::Alphanumeric)
}

/// `s` with later repeats of an element dropped, first occurrences kept in order.
pub open spec fn distinct_spec(s: Seq<Seq<char>>) -> Seq<Seq<char>>
    decreases s.len(),
{
    if s.len() == 0 {
        Seq::empty()
    } else {
        let r = distinct_spec(s.drop_last());
        if r.contains(s.last()) {
            r
        } else {
            r.push(s.last())
        }
    }
}

fn vec_contains(v: &Vec<String>, x: &String) -> (r: bool)
    ensures
        r == strings_view(v@).contains(x@),
{
    let mut i: usize = 0;
    while i < v.len()
        invariant
            0 <= i <= v.len(),
            forall|k: int| 0 <= k < i ==> v@[k]@ != x@,
        decreases v.len() - i,
    {
        if v[i] == *x {
            assert(strings_view(v@)[i as int] == x@);
            return true;
        }
        i += 1;
    }
    assert forall|k: int| 0 <= k < strings_view(v@).len() implies strings_view(v@)[k] != x@ by {
        assert(strings_view(v@)[k] == v@[k]@);
    }
    false
}

/// The strings of `vecs` without repeats, in the order they first appear.
pub fn distinct(vecs: Vec<String>) -> (r: Vec<String>)
    ensures
        strings_view(r@) == distinct_spec(strings_view(vecs@)),
{
    let mut result: Vec<String> = Vec::new();
    let mut i: usize = 0;
    assert(strings_view(vecs@).take(0) =~= Seq::<Seq<char>>::empty());
    assert(strings_view(result@) =~= Seq::<Seq<char>>::empty());
    while i < vecs.len()
        invariant
            0 <= i <= vecs.len(),
            strings_view(result@) == distinct_spec(strings_view(vecs@).take(i as int)),
        decreases vecs.len() - i,
    {
        let ghost before = strings_view(result@);
        let ghost t = strings_view(vecs@).take(i as int + 1);
        assert(t.drop_last() =~= strings_view(vecs@).take(i as int));
        assert(t.last() == vecs@[i as int]@);
        if !vec_contains(&result, &vecs[i]) {
            result.push(vecs[i].clone());
            assert(strings_view(result@) =~= before.push(vecs@[i as int]@));
        }
        i += 1;
    }
    assert(strings_view(vecs@).take(vecs.len() as int) =~= strings_view(vecs@));
    result
}

/// `distinct` keeps no repeats.
pub proof fn lemma_distinct_no_repeats(s: Seq<Seq<char>>)
    ensures
        distinct_spec(s).no_duplicates(),
    decreases s.len(),
{
    if s.len() > 0 {
        lemma_distinct_no_repeats(s.drop_last());
    }
}

/// Membership in a sequence with one more element at its end.
proof fn lemma_contains_push(p: Seq<Seq<char>>, l: Seq<char>, x: Seq<char>)
    ensures
        p.push(l).contains(x) <==> (p.contains(x) || x == l),
{
    if p.push(l).contains(x) {
        let k = choose|k: int| 0 <= k < p.len() + 1 && p.push(l)[k] == x;
        if k < p.len() {
            assert(p[k] == x);
        }
    }
    if p.contains(x) {
        let k = choose|k: int| 0 <= k < p.len() && p[k] == x;
        assert(p.push(l)[k] == x);
    }
    if x == l {
        assert(p.push(l)[p.len() as int] == x);
    }
}

/// `distinct` keeps exactly the elements of its input.
pub proof fn lemma_distinct_same_elements(s: Seq<Seq<char>>, x: Seq<char>)
    ensures
        distinct_spec(s).contains(x) <==> s.contains(x),
    decreases s.len(),
{
    if s.len() > 0 {
        let p = s.drop_last();
        let l = s.last();
        assert(s == p.push(l));
        lemma_distinct_same_elements(p, x);
        lemma_contains_push(p, l, x);
        let r = distinct_spec(p);
        lemma_contains_push(r, l, x);
        if r.contains(l) {
            lemma_distinct_same_elements(p, l);
        }
    }
}

/// The strings of `parts` with `sep` between neighbours.
pub open spec fn join_spec(parts: Seq<Seq<char>>, sep: Seq<char>) -> Seq<char>
    decreases parts.len(),
{
    if parts.len() == 0 {
        Seq::empty()
    } else if parts.len() == 1 {
        parts[0]
    } else {
        join_spec(parts.drop_last(), sep) + sep + parts.last()
    }
}

/// The strings of `args` with `sep` between neighbours.
pub fn join(args: Vec<String>, sep: String) -> (r: String)
    ensures
        r@ == join_spec(strings_view(args@), sep@),
{
    let mut result = String::new();
    let n = args.len();
    let ghost parts = strings_view(args@);
    let mut i: usize = 0;
    while i < n
        invariant
            n == args.len(),
            parts == strings_view(args@),
            0 <= i <= n,
            i == 0 ==> result@ == Seq::<char>::empty(),
            i > 0 ==> result@ == join_spec(parts.take(i as int), sep@) + (if i < n {
                sep@
            } else {
                Seq::<char>::empty()
            }),
        decreases n - i,
    {
        let ghost t = parts.take(i as int + 1);
        assert(t.drop_last() =~= parts.take(i as int));
        assert(t.last() == args@[i as int]@);
        if i == 0 {
            assert(t.len() == 1);
        }
        result.append(args[i].as_str());
        if i != n - 1 {
            result.append(sep.as_str());
        }
        i += 1;
        assert(i > 0);
        if i == 1 {
            assert(result@ =~= join_spec(t, sep@) + (if i < n { sep@ } else { Seq::<char>::empty() }));
        } else {
            assert(result@ =~= join_spec(t, sep@) + (if i < n { sep@ } else { Seq::<char>::empty() }));
        }
    }
    if n > 0 {
        assert(parts.take(n as int) =~= parts);
    } else {
        assert(parts =~= Seq::<Seq<char>>::empty());
    }
    result
}


/// The groups of `get_args`: an argument that starts with `sep` (ignoring case) opens a
/// group of its own; any other argument joins the last group, or opens a new one while
/// no such argument has been seen yet. The flag tells whether one has been seen.
pub open spec fn get_args_fold(args: Seq<Seq<char>>, sep: Seq<char>) -> (Seq<Seq<Seq<char>>>, bool)
    decreases args.len(),
{
    if args.len() == 0 {
        (Seq::empty(), false)
    } else {
        let (res, slash) = get_args_fold(args.drop_last(), sep);
        let a = args.last();
        if spec_starts_with(a, sep, true) {
            (res.push(seq![a]), true)
        } else {
            let res1 = if res.len() == 0 || !slash {
                res.push(Seq::empty())
            } else {
                res
            };
            (res1.update(res1.len() - 1, res1.last().push(a)), slash)
        }
    }
}

pub open spec fn groups_view(v: Seq<Vec<String>>) -> Seq<Seq<Seq<char>>> {
    v.map_values(|g: Vec<String>| strings_view(g@))
}

/// Groups the arguments: each one that starts with `sep` (ignoring case) opens a group.
pub fn get_args(args: &Vec<String>, sep: &String) -> (r: Vec<Vec<String>>)
    ensures
        groups_view(r@) == get_args_fold(strings_view(args@), sep@).0,
{
    let mut result: Vec<Vec<String>> = Vec::new();
    let mut slash = false;
    let mut k: usize = 0;
    assert(groups_view(result@) =~= Seq::<Seq<Seq<char>>>::empty());
    while k < args.len()
        invariant
            0 <= k <= args.len(),
            (groups_view(result@), slash) == get_args_fold(strings_view(args@).take(k as int), sep@),
        decreases args.len() - k,
    {
        let ghost t = strings_view(args@).take(k as int + 1);
        assert(t.drop_last() =~= strings_view(args@).take(k as int));
        assert(t.last() == args@[k as int]@);
        let ghost before = groups_view(result@);
        let narg = args[k].clone();
        if starts_with(&narg, sep.clone(), true) {
            let mut cur: Vec<String> = Vec::new();
            cur.push(narg);
            result.push(cur);
            slash = true;
            assert(strings_view(cur@) =~= seq![args@[k as int]@]);
            assert(groups_view(result@) =~= before.push(seq![args@[k as int]@]));
        } else {
            if result.len() == 0 || slash == false {
                let e: Vec<String> = Vec::new();
                assert(strings_view(e@) =~= Seq::<Seq<char>>::empty());
                result.push(e);
                assert(groups_view(result@) =~= before.push(Seq::empty()));
            }
            let ghost mid = groups_view(result@);
            let mut cur = result.pop().unwrap();
            let ghost cur0 = strings_view(cur@);
            assert(cur0 == mid.last());
            cur.push(narg);
            assert(strings_view(cur@) =~= cur0.push(args@[k as int]@));
            result.push(cur);
            assert(groups_view(result@) =~= mid.update(mid.len() - 1, mid.last().push(args@[k as int]@)));
        }
        k += 1;
    }
    assert(strings_view(args@).take(args.len() as int) =~= strings_view(args@));
    result
}

/// `n` copies of `s`, one after another.
pub open spec fn repeat_seq(s: Seq<char>, n: nat) -> Seq<char>
    decreases n,
{
    if n == 0 {
        Seq::empty()
    } else {
        repeat_seq(s, (n - 1) as nat) + s
    }
}

pub open spec fn spec_pad_left(s: Seq<char>, ch: Seq<char>, count: int) -> Seq<char> {
    let c = glen(s);
    if c >= count {
        s
    } else {
        repeat_seq(ch, (count - c) as nat) + s
    }
}

pub open spec fn spec_pad_right(s: Seq<char>, ch: Seq<char>, count: int) -> Seq<char> {
    let c = glen(s);
    if c >= count {
        s
    } else {
        s + repeat_seq(ch, (count - c) as nat)
    }
}

/// `char` repeated in front of `str` until there would be `count` of them plus one per
/// cluster of `str`; `str` itself when it has `count` clusters or more.
pub fn pad_left(str: &String, char: &String, count: i32) -> (r: String)
    requires
        str@.len() <= i32::MAX,
    ensures
        r@ == spec_pad_left(str@, char@, count as int),
{
    let gs = grapheme_list(str.as_str());
    let c = gs.len();
    let mut result = String::new();
    if (c as i32) >= count {
        return str.clone();
    }
    let mut amt = count - (c as i32);
    while amt > 0
        invariant
            0 <= amt <= count - c,
            result@ == repeat_seq(char@, (count - c - amt) as nat),
        decreases amt,
    {
        result.append(char.as_str());
        amt = amt - 1;
    }
    result.append(str.as_str());
    result
}

/// `str` followed by `char` repeated until there would be `count` of them plus one per
/// cluster of `str`; `str` itself when it has `count` clusters or more.
pub fn pad_right(str: &String, char: &String, count: i32) -> (r: String)
    requires
        str@.len() <= i32::MAX,
    ensures
        r@ == spec_pad_right(str@, char@, count as int),
{
    let gs = grapheme_list(str.as_str());
    let c = gs.len();
    let mut result = String::new();
    result.append(str.as_str());
    if (c as i32) >= count {
        return str.clone();
    }
    let mut amt = count - (c as i32);
    while amt > 0
        invariant
            0 <= amt <= count - c,
            result@ == str@ + repeat_seq(char@, (count - c - amt) as nat),
        decreases amt,
    {
        result.append(char.as_str());
        amt = amt - 1;
        assert(result@ =~= str@ + repeat_seq(char@, (count - c - amt) as nat));
    }
    result
}

/// "/" as a string.
pub fn slash_text() -> (r: String)
    ensures
        r@ == seq!['/'],
{
    let r = String::from_str("/");
    proof {
        reveal_strlit("/");
    }
    assert(r@ =~= seq!['/']);
    r
}

/// "\\" as a string.
pub fn backslash_text() -> (r: String)
    ensures
        r@ == seq!['\\'],
{
    let r = String::from_str("\\");
    proof {
        reveal_strlit("\\");
    }
    assert(r@ =~= seq!['\\']);
    r
}

/// "." as a string.
pub fn dot_text() -> (r: String)
    ensures
        r@ == seq!['.'],
{
    let r = String::from_str(".");
    proof {
        reveal_strlit(".");
    }
    assert(r@ =~= seq!['.']);
    r
}

/// The cluster position of the last "/" or "\\" in `f` (ignoring case), the later of the two;
/// -1 when there is none.
pub open spec fn last_sep_index(f: Seq<char>) -> int {
    let i = spec_last_index_of(f, seq!['/'], true);
    let j = spec_last_index_of(f, seq!['\\'], true);
    if j > i && j != -1 {
        j
    } else {
        i
    }
}

pub open spec fn spec_get_filename_only(f: Seq<char>) -> Seq<char> {
    let c = glen(f);
    let i = last_sep_index(f);
    if i != -1 && i + 1 < c {
        spec_substring(f, i + 1, c - i - 1)
    } else {
        f
    }
}

pub open spec fn spec_get_path(f: Seq<char>) -> Seq<char> {
    let i = last_sep_index(f);
    if i != -1 {
        spec_substring(f, 0, i)
    } else {
        f
    }
}

pub open spec fn spec_strip_extension(f: Seq<char>) -> Seq<char> {
    let i = spec_last_index_of(f, seq!['.'], true);
    if i != -1 {
        spec_substring(f, 0, i)
    } else {
        f
    }
}

/// The last "/" or "\\" of `file` with what precedes, and its cluster position; both
/// searches ignore case.
fn last_separator(file: &String) -> (r: i32)
    requires
        file@.len() <= i32::MAX,
    ensures
        r == last_sep_index(file@),
        r == -1 || (0 <= r <= glen(file@) && r < i32::MAX),
        seg_facts(file@),
        glen(file@) <= file@.len(),
{
    let mut i = last_index_of(file, slash_text(), true);
    let j = last_index_of(file, backslash_text(), true);
    proof {
        lemma_last_index_of_bounds(true, spec_graphemes(file@), spec_graphemes(seq!['/']), );
        lemma_last_index_of_bounds(true, spec_graphemes(file@), spec_graphemes(seq!['\\']));
    }
    if j > i && j != -1 {
        i = j;
    }
    i
}

/// What follows the last "/" or "\\" of `file`; `file` itself when there is none or nothing
/// follows it.
pub fn get_filename_only(file: String) -> (r: String)
    requires
        file@.len() <= i32::MAX,
    ensures
        r@ == spec_get_filename_only(file@),
{
    let c = count(&file);
    let i = last_separator(&file);
    if i != -1 && i + 1 < c {
        return substring(&file, i + 1, c - i - 1);
    }
    file
}

/// What precedes the last "." of `file`; `file` itself when it has none.
pub fn get_filename_without_extension(file: String) -> (r: String)
    requires
        file@.len() <= i32::MAX,
    ensures
        r@ == spec_strip_extension(file@),
{
    let i = last_index_of(&file, dot_text(), true);
    proof {
        lemma_last_index_of_bounds(true, spec_graphemes(file@), spec_graphemes(seq!['.']));
    }
    if i != -1 {
        return substring(&file, 0, i);
    }
    file
}

/// What precedes the last "/" or "\\" of `file`; `file` itself when it has none.
pub fn get_path(file: String) -> (r: String)
    requires
        file@.len() <= i32::MAX,
    ensures
        r@ == spec_get_path(file@),
{
    let i = last_separator(&file);
    if i != -1 {
        return substring(&file, 0, i);
    }
    file
}


/// Whether `dr` is an option group: its first cluster is `ost` and its last is `oen` (with
/// a single cluster, `oen` must be empty).
pub open spec fn mul_is_option(dr: Seq<char>, ost: Seq<char>, oen: Seq<char>) -> bool {
    let g = spec_graphemes(dr);
    let c = g.len();
    c >= 1 && g[0] == ost && (if c >= 2 {
        g[c - 1] == oen
    } else {
        oen.len() == 0
    })
}

/// The paths that one segment `dr` adds after `str1`: one per option of a group, joined
/// with `sep`; otherwise `dr` itself, joined with "\\" unless `str1` is empty.
pub open spec fn mul_level(
    dr: Seq<char>,
    str1: Seq<char>,
    sep: Seq<char>,
    ost: Seq<char>,
    oen: Seq<char>,
    osep: Seq<char>,
) -> Seq<Seq<char>> {
    if mul_is_option(dr, ost, oen) {
        split_spec(spec_substring(dr, 1, glen(dr) - 2), osep).map_values(|p: Seq<char>| str1 + sep + p)
    } else {
        seq![str1 + (if str1.len() > 0 { seq!['\\'] } else { Seq::<char>::empty() }) + dr]
    }
}

/// The paths built from segment `i` on after `str1`: those of this segment, then, for each
/// of them in turn, those built from the next segment on after it.
pub open spec fn mul_inner(
    dirs: Seq<Seq<char>>,
    str1: Seq<char>,
    sep: Seq<char>,
    ost: Seq<char>,
    oen: Seq<char>,
    osep: Seq<char>,
    i: int,
) -> Seq<Seq<char>>
    decreases dirs.len() - i, 0int,
{
    let own = mul_level(dirs[i], str1, sep, ost, oen, osep);
    if 0 <= i < dirs.len() - 1 {
        own + mul_children(dirs, own, sep, ost, oen, osep, i + 1)
    } else {
        own
    }
}

/// The paths built from segment `i` on after each element of `xs`, in order.
pub open spec fn mul_children(
    dirs: Seq<Seq<char>>,
    xs: Seq<Seq<char>>,
    sep: Seq<char>,
    ost: Seq<char>,
    oen: Seq<char>,
    osep: Seq<char>,
    i: int,
) -> Seq<Seq<char>>
    decreases dirs.len() - i, xs.len() + 1,
{
    if xs.len() == 0 {
        Seq::empty()
    } else {
        mul_children(dirs, xs.drop_last(), sep, ost, oen, osep, i) + mul_inner(
            dirs,
            xs.last(),
            sep,
            ost,
            oen,
            osep,
            i,
        )
    }
}

/// The elements of `vs` that split into `c` pieces at `sep`.
pub open spec fn keep_with_pieces(vs: Seq<Seq<char>>, sep: Seq<char>, c: int) -> Seq<Seq<char>>
    decreases vs.len(),
{
    if vs.len() == 0 {
        Seq::empty()
    } else {
        let r = keep_with_pieces(vs.drop_last(), sep, c);
        if split_spec(vs.last(), sep).len() == c {
            r.push(vs.last())
        } else {
            r
        }
    }
}

pub open spec fn spec_mul_string(
    dirs: Seq<char>,
    sep: Seq<char>,
    ost: Seq<char>,
    oen: Seq<char>,
    osep: Seq<char>,
) -> Seq<Seq<char>> {
    let d = split_spec(dirs, sep);
    keep_with_pieces(mul_inner(d, Seq::empty(), sep, ost, oen, osep, 0), sep, d.len() as int)
}

/// No piece of a split is longer than the split string.
pub proof fn lemma_split_pieces_len(s: Seq<char>, pat: Seq<char>)
    ensures
        forall|k: int| 0 <= k < split_spec(s, pat).len() ==> (#[trigger] split_spec(s, pat)[k]).len() <= s.len(),
    decreases s.len(),
{
    if pat.len() > 0 {
        let k0 = crate::split::find_from(s, pat, 0);
        if k0 >= 0 {
            crate::split::lemma_find_from_bounds(s, pat, 0);
            let rest = s.skip(k0 + pat.len());
            lemma_split_pieces_len(rest, pat);
            let sp = split_spec(s, pat);
            assert(sp == seq![s.take(k0)] + split_spec(rest, pat));
            assert forall|k: int| 0 <= k < sp.len() implies (#[trigger] sp[k]).len() <= s.len() by {
                if k > 0 {
                    assert(sp[k] == split_spec(rest, pat)[k - 1]);
                }
            }
        }
    }
}

/// The paths that segment `i` of `dirs2` adds after `str1`, each followed by the paths
/// built from the next segment on after it.
fn mul_string_inner(
    dirs2: &Vec<String>,
    str1: &String,
    sep: &String,
    opstart: &String,
    opend: &String,
    opsep: &String,
    i: usize,
) -> (r: Vec<String>)
    requires
        i < dirs2.len(),
        forall|k: int| 0 <= k < dirs2.len() ==> (#[trigger] dirs2@[k])@.len() <= i32::MAX,
    ensures
        strings_view(r@) == mul_inner(strings_view(dirs2@), str1@, sep@, opstart@, opend@, opsep@, i as int),
    decreases dirs2.len() - i,
{
    let ghost d = strings_view(dirs2@);
    let dr = &dirs2[i];
    assert(dr@ == d[i as int]);
    let gs = grapheme_list(dr.as_str());
    let ghost g = spec_graphemes(dr@);
    let c = gs.len();
    let mut vecs: Vec<String> = Vec::new();
    let is_opt = if c >= 1 && gs[0] == *opstart {
        if c >= 2 {
            gs[c - 1] == *opend
        } else {
            opend.as_str().unicode_len() == 0
        }
    } else {
        false
    };
    proof {
        if c >= 1 {
            assert(gs@[0]@ == g[0]);
        }
        if c >= 2 {
            assert(gs@[c - 1]@ == g[c - 1]);
        }
    }
    assert(is_opt == mul_is_option(dr@, opstart@, opend@));
    if is_opt {
        let t = substring(dr, 1, (c as i32) - 2);
        let sps = split_str(t.as_str(), opsep.as_str());
        let ghost pieces = split_spec(t@, opsep@);
        let mut j: usize = 0;
        assert(strings_view(vecs@) =~= pieces.take(0).map_values(|p: Seq<char>| str1@ + sep@ + p));
        while j < sps.len()
            invariant
                sps@.map_values(|p: String| p@) == pieces,
                0 <= j <= sps.len(),
                strings_view(vecs@) == pieces.take(j as int).map_values(|p: Seq<char>| str1@ + sep@ + p),
            decreases sps.len() - j,
        {
            let x = str1.clone().concat(sep.as_str()).concat(sps[j].as_str());
            let ghost before = strings_view(vecs@);
            vecs.push(x);
            assert(sps@.map_values(|p: String| p@)[j as int] == sps@[j as int]@);
            assert(strings_view(vecs@) =~= before.push(str1@ + sep@ + pieces[j as int]));
            assert(pieces.take(j as int + 1).map_values(|p: Seq<char>| str1@ + sep@ + p) =~= pieces.take(
                j as int,
            ).map_values(|p: Seq<char>| str1@ + sep@ + p).push(str1@ + sep@ + pieces[j as int]));
            j += 1;
        }
        assert(pieces.take(sps.len() as int) =~= pieces);
    } else {
        let mut x = str1.clone();
        if str1.as_str().unicode_len() != 0 {
            x.append(backslash_text().as_str());
        }
        x.append(dr.as_str());
        vecs.push(x);
        assert(strings_view(vecs@) =~= seq![x@]);
    }
    let ghost own = strings_view(vecs@);
    assert(own == mul_level(d[i as int], str1@, sep@, opstart@, opend@, opsep@));
    if i < dirs2.len() - 1 {
        let n_own = vecs.len();
        let mut x: usize = 0;
        assert(own.take(0) =~= Seq::<Seq<char>>::empty());
        assert(strings_view(vecs@) =~= own + mul_children(d, own.take(0), sep@, opstart@, opend@, opsep@, i + 1));
        while x < n_own
            invariant
                d == strings_view(dirs2@),
                i < dirs2.len() - 1,
                forall|k: int| 0 <= k < dirs2.len() ==> (#[trigger] dirs2@[k])@.len() <= i32::MAX,
                n_own == own.len(),
                0 <= x <= n_own,
                n_own <= vecs.len(),
                strings_view(vecs@).take(n_own as int) == own,
                strings_view(vecs@) == own + mul_children(
                    d,
                    own.take(x as int),
                    sep@,
                    opstart@,
                    opend@,
                    opsep@,
                    i + 1,
                ),
            decreases n_own - x,
        {
            let item = vecs[x].clone();
            assert(item@ == own[x as int]) by {
                assert(strings_view(vecs@).take(n_own as int)[x as int] == vecs@[x as int]@);
            }
            let vecs2 = mul_string_inner(dirs2, &item, sep, opstart, opend, opsep, i + 1);
            let mut y: usize = 0;
            let ghost base = strings_view(vecs@);
            while y < vecs2.len()
                invariant
                    0 <= y <= vecs2.len(),
                    n_own <= base.len(),
                    strings_view(vecs@) == base + strings_view(vecs2@).take(y as int),
                decreases vecs2.len() - y,
            {
                let ghost before = strings_view(vecs@);
                vecs.push(vecs2[y].clone());
                assert(strings_view(vecs@) =~= before.push(vecs2@[y as int]@));
                assert(strings_view(vecs2@).take(y as int + 1) =~= strings_view(vecs2@).take(y as int).push(
                    vecs2@[y as int]@,
                ));
                y += 1;
            }
            assert(strings_view(vecs2@).take(vecs2.len() as int) =~= strings_view(vecs2@));
            let ghost t = own.take(x as int + 1);
            assert(t.drop_last() =~= own.take(x as int));
            assert(t.last() == own[x as int]);
            assert(strings_view(vecs@) =~= own + mul_children(d, t, sep@, opstart@, opend@, opsep@, i + 1));
            assert(strings_view(vecs@).take(n_own as int) =~= own);
            x += 1;
        }
        assert(own.take(n_own as int) =~= own);
    }
    vecs
}

/// The paths described by `dirs`: its segments, split at `sep`, are joined in turn, and a
/// segment of the form `opstart opt1 opsep opt2 ... opend` stands for each of its options;
/// only the paths with as many segments as `dirs` are kept.
pub fn mul_string(dirs: &str, sep: &str, opstart: &str, opend: &str, opsep: &str) -> (r: Vec<String>)
    requires
        dirs@.len() <= i32::MAX,
    ensures
        strings_view(r@) == spec_mul_string(dirs@, sep@, opstart@, opend@, opsep@),
{
    let dirs2 = split_str(dirs, sep);
    let ghost d = split_spec(dirs@, sep@);
    assert(strings_view(dirs2@) == d);
    let c = dirs2.len();
    proof {
        lemma_split_pieces_len(dirs@, sep@);
        assert forall|k: int| 0 <= k < dirs2.len() implies (#[trigger] dirs2@[k])@.len() <= i32::MAX by {
            assert(d[k] == dirs2@[k]@);
        }
        if sep@.len() == 0 {
            assert(d.len() >= 2);
        } else {
            let k0 = crate::split::find_from(dirs@, sep@, 0);
            if k0 >= 0 {
                assert(d.len() >= 1);
            } else {
                assert(d.len() == 1);
            }
        }
    }
    let s1 = String::new();
    let sepx = String::from_str(sep);
    let ost = String::from_str(opstart);
    let oen = String::from_str(opend);
    let osp = String::from_str(opsep);
    let vs = mul_string_inner(&dirs2, &s1, &sepx, &ost, &oen, &osp, 0);
    let ghost all = strings_view(vs@);
    let mut result: Vec<String> = Vec::new();
    let mut x: usize = 0;
    assert(all.take(0) =~= Seq::<Seq<char>>::empty());
    assert(strings_view(result@) =~= Seq::<Seq<char>>::empty());
    while x < vs.len()
        invariant
            all == strings_view(vs@),
            c == d.len(),
            0 <= x <= vs.len(),
            strings_view(result@) == keep_with_pieces(all.take(x as int), sep@, c as int),
        decreases vs.len() - x,
    {
        let pieces = split_str(vs[x].as_str(), sep);
        let ghost t = all.take(x as int + 1);
        assert(t.drop_last() =~= all.take(x as int));
        assert(t.last() == vs@[x as int]@);
        if pieces.len() == c {
            let ghost before = strings_view(result@);
            result.push(vs[x].clone());
            assert(strings_view(result@) =~= before.push(vs@[x as int]@));
        }
        x += 1;
    }
    assert(all.take(vs.len() as int) =~= all);
    result
}


/// The characters of the clusters of `g` from position `k` on.
pub open spec fn rest_len(g: Seq<Seq<char>>, k: int) -> int {
    g.skip(k).flatten().len() as int
}

proof fn lemma_rest_len_step(g: Seq<Seq<char>>, k: int)
    requires
        0 <= k < g.len(),
    ensures
        rest_len(g, k) == g[k].len() + rest_len(g, k + 1),
{
    let t = g.skip(k);
    assert(t.drop_first() =~= g.skip(k + 1));
    assert(t.first() == g[k]);
}

proof fn lemma_between_run_len(
    ic: bool,
    sm: Seq<Seq<char>>,
    em: Seq<Seq<char>>,
    limit: i32,
    g: Seq<Seq<char>>,
    k: int,
    st: BetweenState,
    total: int,
)
    requires
        0 <= k <= g.len(),
        forall|j: int| 0 <= j < em.len() ==> (#[trigger] em[j]).len() <= 1,
        forall|j: int| 0 <= j < g.len() ==> (#[trigger] g[j]).len() >= 1,
        0 <= st.2,
        st.3.len() + st.4.len() + rest_len(g, k) <= total,
        forall|j: int| 0 <= j < st.5.len() ==> (#[trigger] st.5[j]).len() <= total,
    ensures
        forall|j: int|
            0 <= j < between_run(ic, sm, em, limit, g, k, st).len() ==> (#[trigger] between_run(
                ic,
                sm,
                em,
                limit,
                g,
                k,
                st,
            )[j]).len() <= total,
    decreases g.len() - k,
{
    if k < g.len() {
        lemma_rest_len_step(g, k);
        let (st2, stop) = between_step(ic, sm, em, limit, st, g[k]);
        let (started, m, pe, temp, temp2, out) = st;
        let ec = em.len() as int;
        assert(g[k].len() >= 1);
        if ec > 0 {
            assert(em[0].len() <= 1);
            if 0 <= pe < ec {
                assert(em[pe].len() <= 1);
            }
        }
        if started {
            let c = g[k];
            let (m1, pe1, t1, t21) = if ec == 0 {
                (m, 0, temp, temp2)
            } else {
                let e = if pe < ec { em[pe] } else { em[0] };
                let pe_a = if pe < ec { pe + 1 } else { 1 };
                if geq(ic, c, e) {
                    (m + 1, pe_a, temp, temp2 + e)
                } else if geq(ic, c, em[0]) {
                    (1, pe_a, temp + temp2, em[0])
                } else {
                    (0, 0, temp + temp2 + c, Seq::<char>::empty())
                }
            };
            if ec > 0 {
                let e = if pe < ec { em[pe] } else { em[0] };
                assert(e.len() <= 1);
                assert((temp + temp2 + c).len() == temp.len() + temp2.len() + c.len());
                assert((temp2 + e).len() == temp2.len() + e.len());
                assert((temp + temp2).len() == temp.len() + temp2.len());
            }
            assert(t1.len() + t21.len() <= temp.len() + temp2.len() + c.len());
            if m1 == ec {
                assert(st2.5 == out.push(t1));
                assert(st2.5[out.len() as int] == t1);
            }
        }
        assert(st2.3.len() + st2.4.len() + rest_len(g, k + 1) <= total);
        assert(between_run(ic, sm, em, limit, g, k, st) == (if stop {
            st2.5
        } else {
            between_run(ic, sm, em, limit, g, k + 1, st2)
        }));
        assert forall|j: int| 0 <= j < st2.5.len() implies (#[trigger] st2.5[j]).len() <= total by {
            if j < st.5.len() {
                assert(st2.5[j] == st.5[j]);
            }
        }
        if !stop {
            lemma_between_run_len(ic, sm, em, limit, g, k + 1, st2, total);
        }
    } else {
        assert(g.skip(k) =~= Seq::<Seq<char>>::empty());
    }
}

/// With an end marker of one-character clusters, each text that `between` finds is no
/// longer than the searched string.
pub proof fn lemma_between_piece_len(s: Seq<char>, start: Seq<char>, end: Seq<char>, limit: i32, ic: bool)
    requires
        seg_facts(s),
        forall|j: int| 0 <= j < spec_graphemes(end).len() ==> (#[trigger] spec_graphemes(end)[j]).len() <= 1,
    ensures
        forall|j: int|
            0 <= j < spec_between(s, start, end, limit, ic).len() ==> (#[trigger] spec_between(
                s,
                start,
                end,
                limit,
                ic,
            )[j]).len() <= s.len(),
{
    let g = spec_graphemes(s);
    assert(g.skip(0) =~= g);
    lemma_between_run_len(
        ic,
        spec_graphemes(start),
        spec_graphemes(end),
        limit,
        g,
        0,
        (false, 0, 0, Seq::empty(), Seq::empty(), Seq::empty()),
        s.len() as int,
    );
}


/// A substring is no longer than its string.
pub proof fn lemma_substring_len(s: Seq<char>, i: int, count: int)
    requires
        seg_facts(s),
        i + count <= glen(s),
    ensures
        spec_substring(s, i, count).len() <= s.len(),
{
    let g = spec_graphemes(s);
    if count > 0 {
        let a = if i > 0 { i } else { 0 };
        let b = if a + count < g.len() { a + count } else { g.len() as int };
        lemma_flat_range_len(g, s, a, b);
    }
}

} // verus!
