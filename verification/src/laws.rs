//! Properties that relate the library's functions to one another or hold of every input.

use crate::path::{last_dir_sep, spec_get_directory_name, spec_get_extension, spec_get_filename, spec_url_between};
use crate::sd_req::{
    seed_value, spec_config_seeds, spec_decimal, spec_request_plan, spec_signed_decimal, RequestPlan,
};
use crate::split::{find_from, split_spec};
use crate::stringops::{
    geq, get_args_fold, join_spec, keep_with_pieces, scan,
    skip_trailing_ws, spec_between, spec_ends_with, spec_index_of, spec_last_index_of, spec_mul_string, spec_rtrim, spec_starts_with,
    spec_strip_extension, spec_substring, substring_gs, between_run, between_step, BetweenState,
};
use crate::types::{all_digits, digits_value, parse_in_range_spec};
use crate::unicode::{glen, seg_facts, spec_graphemes};
use vstd::prelude::*;

verus! {

/// The clusters of `g` from position `p` match those of `sub`, one by one.
pub open spec fn matches_at(ic: bool, g: Seq<Seq<char>>, sub: Seq<Seq<char>>, p: int) -> bool {
    &&& 0 <= p
    &&& p + sub.len() <= g.len()
    &&& forall|j: int| 0 <= j < sub.len() ==> geq(ic, #[trigger] g[p + j], sub[j])
}

proof fn lemma_scan_sound(ic: bool, t: Seq<Seq<char>>, sub: Seq<Seq<char>>, k: int, cnt: int)
    requires
        0 <= cnt <= k,
        cnt < sub.len(),
        forall|j: int| 0 <= j < cnt ==> geq(ic, #[trigger] t[k - cnt + j], sub[j]),
    ensures
        scan(ic, t, sub, k, cnt) != -1 ==> matches_at(
            ic,
            t,
            sub,
            scan(ic, t, sub, k, cnt) - sub.len(),
        ),
    decreases t.len() - k,
{
    crate::stringops::lemma_scan_bounds(ic, t, sub, k, cnt);
    if k < t.len() {
        let c2 = crate::stringops::step(ic, sub, cnt, t[k]);
        if geq(ic, t[k], sub[cnt]) {
            assert forall|j: int| 0 <= j < cnt + 1 implies geq(ic, #[trigger] t[k + 1 - (cnt + 1) + j], sub[j]) by {
                if j < cnt {
                    assert(t[k + 1 - (cnt + 1) + j] == t[k - cnt + j]);
                }
            }
        }
        if c2 != sub.len() {
            lemma_scan_sound(ic, t, sub, k + 1, c2);
        } else {
            let n = k + 1;
            assert forall|j: int| 0 <= j < sub.len() implies geq(ic, #[trigger] t[n - sub.len() + j], sub[j]) by {
                if sub.len() > 1 || !geq(ic, t[k], sub[cnt]) {
                }
            }
        }
    }
}

/// Whatever `index_of` finds from a non-negative start is a match: the clusters from the
/// returned position match those of `sub`. (From a negative start `index_of` searches from
/// 0 but adds the start to the position it returns, so the law is stated for starts of 0
/// and up.)
pub proof fn lemma_index_of_is_match(s: Seq<char>, sub: Seq<char>, start: int, ic: bool)
    requires
        start >= 0,
        glen(sub) > 0,
        spec_index_of(s, sub, start, ic) != -1,
    ensures
        matches_at(ic, spec_graphemes(s), spec_graphemes(sub), spec_index_of(s, sub, start, ic)),
        spec_index_of(s, sub, start, ic) >= start,
{
    let g = spec_graphemes(s);
    let sg = spec_graphemes(sub);
    let t = g.skip(start);
    lemma_scan_sound(ic, t, sg, 0, 0);
    crate::stringops::lemma_scan_bounds(ic, t, sg, 0, 0);
    let n = scan(ic, t, sg, 0, 0);
    let r = n - sg.len() + start;
    assert forall|j: int| 0 <= j < sg.len() implies geq(ic, #[trigger] g[r + j], sg[j]) by {
        assert(t[n - sg.len() + j] == g[r + j]);
    }
}

proof fn lemma_scan_prefix(ic: bool, g: Seq<Seq<char>>, sub: Seq<Seq<char>>, k: int)
    requires
        0 <= k < sub.len(),
        sub.len() <= g.len(),
        forall|j: int| 0 <= j < sub.len() ==> geq(ic, #[trigger] sub[j], g[j]),
    ensures
        scan(ic, g, sub, k, k) == sub.len(),
    decreases sub.len() - k,
{
    assert(geq(ic, sub[k], g[k]));
    assert(geq(ic, g[k], sub[k]));
    if k + 1 < sub.len() {
        lemma_scan_prefix(ic, g, sub, k + 1);
    }
}

/// A string that starts with `sub` has its first match of `sub` at position 0.
pub proof fn lemma_starts_with_index_of(s: Seq<char>, sub: Seq<char>, ic: bool)
    requires
        spec_starts_with(s, sub, ic),
        glen(sub) > 0,
    ensures
        spec_index_of(s, sub, 0, ic) == 0,
{
    let g = spec_graphemes(s);
    let sg = spec_graphemes(sub);
    assert(g.skip(0) =~= g);
    lemma_scan_prefix(ic, g, sg, 0);
}

/// Whatever `last_index_of` finds is a match: the clusters from the returned position match
/// those of `sub`.
pub proof fn lemma_last_index_of_is_match(s: Seq<char>, sub: Seq<char>, ic: bool)
    requires
        glen(sub) > 0,
        spec_last_index_of(s, sub, ic) != -1,
    ensures
        matches_at(ic, spec_graphemes(s), spec_graphemes(sub), spec_last_index_of(s, sub, ic)),
{
    let g = spec_graphemes(s);
    let sg = spec_graphemes(sub);
    let t = g.reverse();
    let ts = sg.reverse();
    lemma_scan_sound(ic, t, ts, 0, 0);
    crate::stringops::lemma_scan_bounds(ic, t, ts, 0, 0);
    let n = scan(ic, t, ts, 0, 0);
    let r = g.len() - n;
    let sc = sg.len() as int;
    assert forall|j: int| 0 <= j < sc implies geq(ic, #[trigger] g[r + j], sg[j]) by {
        let i = sc - 1 - j;
        assert(geq(ic, t[n - sc + i], ts[i]));
        assert(t[n - sc + i] == g[r + j]);
        assert(ts[i] == sg[j]);
    }
}

/// A string that ends with `sub` has its last match of `sub` at its last `glen(sub)`
/// clusters.
pub proof fn lemma_ends_with_last_index_of(s: Seq<char>, sub: Seq<char>, ic: bool)
    requires
        spec_ends_with(s, sub, ic),
        glen(sub) > 0,
    ensures
        spec_last_index_of(s, sub, ic) == glen(s) - glen(sub),
{
    let g = spec_graphemes(s);
    let sg = spec_graphemes(sub);
    let t = g.reverse();
    let ts = sg.reverse();
    assert forall|j: int| 0 <= j < ts.len() implies geq(ic, #[trigger] ts[j], t[j]) by {
        assert(ts[j] == sg[sg.len() - 1 - j]);
        assert(t[j] == g[g.len() - 1 - j]);
    }
    lemma_scan_prefix(ic, t, ts, 0);
}

/// No cluster of `sub` after the first matches the first.
pub open spec fn first_cluster_unrepeated(ic: bool, sub: Seq<Seq<char>>) -> bool {
    forall|j: int| 1 <= j < sub.len() ==> !geq(ic, #[trigger] sub[j], sub[0])
}

/// No cluster of `sub` before the last matches the last.
pub open spec fn last_cluster_unrepeated(ic: bool, sub: Seq<Seq<char>>) -> bool {
    forall|j: int| 0 <= j < sub.len() - 1 ==> !geq(ic, #[trigger] sub[j], sub[sub.len() - 1])
}

/// A scan that reaches an occurrence of a pattern whose first cluster does not recur finds
/// a match ending no later than that occurrence.
proof fn lemma_scan_complete(ic: bool, t: Seq<Seq<char>>, sub: Seq<Seq<char>>, k: int, cnt: int, p: int)
    requires
        sub.len() > 0,
        first_cluster_unrepeated(ic, sub),
        matches_at(ic, t, sub, p),
        0 <= cnt < sub.len(),
        0 <= k,
        (k <= p) || (k == p + cnt && cnt >= 1),
    ensures
        scan(ic, t, sub, k, cnt) != -1,
        scan(ic, t, sub, k, cnt) <= p + sub.len(),
    decreases t.len() - k,
{
    let sc = sub.len() as int;
    assert(k < t.len());
    let c2 = crate::stringops::step(ic, sub, cnt, t[k]);
    if k < p {
        if c2 != sc {
            crate::stringops::lemma_scan_bounds(ic, t, sub, k + 1, 0);
            assert(0 <= c2 <= cnt + 1);
            if c2 <= k + 1 {
                lemma_scan_complete(ic, t, sub, k + 1, c2, p);
            } else {
                lemma_scan_complete(ic, t, sub, k + 1, c2, p);
            }
        }
    } else if k == p {
        assert(geq(ic, t[p + 0], sub[0]));
        if cnt > 0 {
            if geq(ic, t[k], sub[cnt]) {
                assert(geq(ic, sub[cnt], sub[0]));
            }
        }
        assert(c2 == 1);
        if c2 != sc {
            lemma_scan_complete(ic, t, sub, k + 1, 1, p);
        }
    } else {
        assert(geq(ic, t[p + cnt], sub[cnt]));
        assert(c2 == cnt + 1);
        if c2 != sc {
            lemma_scan_complete(ic, t, sub, k + 1, c2, p);
        }
    }
}

/// `index_of` finds the first match: for a pattern whose first cluster does not recur in it,
/// when the pattern occurs at cluster `p` at or after `start`, the search succeeds and
/// returns a match at or after `start` and no later than `p`.
pub proof fn lemma_index_of_finds_first(s: Seq<char>, sub: Seq<char>, start: int, ic: bool, p: int)
    requires
        start >= 0,
        glen(sub) > 0,
        first_cluster_unrepeated(ic, spec_graphemes(sub)),
        p >= start,
        matches_at(ic, spec_graphemes(s), spec_graphemes(sub), p),
    ensures
        spec_index_of(s, sub, start, ic) != -1,
        start <= spec_index_of(s, sub, start, ic) <= p,
        matches_at(ic, spec_graphemes(s), spec_graphemes(sub), spec_index_of(s, sub, start, ic)),
{
    let g = spec_graphemes(s);
    let sg = spec_graphemes(sub);
    let t = g.skip(start);
    assert forall|j: int| 0 <= j < sg.len() implies geq(ic, #[trigger] t[p - start + j], sg[j]) by {
        assert(t[p - start + j] == g[p + j]);
        assert(geq(ic, g[p + j], sg[j]));
    }
    assert(matches_at(ic, t, sg, p - start));
    lemma_scan_complete(ic, t, sg, 0, 0, p - start);
    let n = scan(ic, t, sg, 0, 0);
    crate::stringops::lemma_scan_bounds(ic, t, sg, 0, 0);
    assert(sg.len() <= g.len());
    assert(start + sg.len() <= g.len());
    assert(g.skip(if start > 0 { start } else { 0 }) == t);
    assert(spec_index_of(s, sub, start, ic) == n - sg.len() + start);
    lemma_index_of_is_match(s, sub, start, ic);
}

/// `last_index_of` finds the last match: for a pattern whose last cluster does not recur in
/// it, when the pattern occurs at cluster `p`, the search succeeds and returns a match at
/// or after `p`.
pub proof fn lemma_last_index_of_finds_last(s: Seq<char>, sub: Seq<char>, ic: bool, p: int)
    requires
        glen(sub) > 0,
        last_cluster_unrepeated(ic, spec_graphemes(sub)),
        matches_at(ic, spec_graphemes(s), spec_graphemes(sub), p),
    ensures
        spec_last_index_of(s, sub, ic) != -1,
        p <= spec_last_index_of(s, sub, ic),
        matches_at(ic, spec_graphemes(s), spec_graphemes(sub), spec_last_index_of(s, sub, ic)),
{
    let g = spec_graphemes(s);
    let sg = spec_graphemes(sub);
    let c = g.len() as int;
    let sc = sg.len() as int;
    let t = g.reverse();
    let ts = sg.reverse();
    let q = c - p - sc;
    assert forall|j: int| 1 <= j < ts.len() implies !geq(ic, #[trigger] ts[j], ts[0]) by {
        assert(ts[j] == sg[sc - 1 - j]);
        assert(ts[0] == sg[sc - 1]);
    }
    assert forall|j: int| 0 <= j < ts.len() implies geq(ic, #[trigger] t[q + j], ts[j]) by {
        assert(t[q + j] == g[p + sc - 1 - j]);
        assert(ts[j] == sg[sc - 1 - j]);
        assert(geq(ic, g[p + (sc - 1 - j)], sg[sc - 1 - j]));
    }
    assert(matches_at(ic, t, ts, q));
    lemma_scan_complete(ic, t, ts, 0, 0, q);
    let n = scan(ic, t, ts, 0, 0);
    crate::stringops::lemma_scan_bounds(ic, t, ts, 0, 0);
    assert(sc <= c);
    assert(spec_last_index_of(s, sub, ic) == c - n);
    lemma_last_index_of_is_match(s, sub, ic);
}

/// The clusters of `sm` match those of `g` that end just before position `a`.
pub open spec fn start_matched_before(ic: bool, g: Seq<Seq<char>>, sm: Seq<Seq<char>>, a: int) -> bool {
    &&& sm.len() <= a <= g.len()
    &&& forall|j: int| 0 <= j < sm.len() ==> geq(ic, #[trigger] g[a - sm.len() + j], sm[j])
}

/// `piece` is the text of the clusters `q`, which match, one by one, the clusters `[a, b)` of
/// `g`; a match of `sm` ends at `a`, and `em.len()` clusters of `g` follow `b`.
pub open spec fn piece_at(
    ic: bool,
    g: Seq<Seq<char>>,
    sm: Seq<Seq<char>>,
    em: Seq<Seq<char>>,
    piece: Seq<char>,
    a: int,
    b: int,
    q: Seq<Seq<char>>,
) -> bool {
    &&& start_matched_before(ic, g, sm, a)
    &&& a <= b
    &&& b + em.len() <= g.len()
    &&& q.len() == b - a
    &&& forall|j: int| 0 <= j < q.len() ==> geq(ic, #[trigger] g[a + j], q[j])
    &&& piece == q.flatten()
}

/// `piece` is a run of clusters of `g` that directly follows a match of `sm` (compared as
/// `between` compares them) and is followed by room for the end marker.
pub open spec fn is_between_piece(
    ic: bool,
    g: Seq<Seq<char>>,
    sm: Seq<Seq<char>>,
    em: Seq<Seq<char>>,
    piece: Seq<char>,
) -> bool {
    exists|a: int, b: int, q: Seq<Seq<char>>| #[trigger] piece_at(ic, g, sm, em, piece, a, b, q)
}

/// What `between_run` holds at position `k`: the texts found so far are pieces; before a
/// start marker is complete, the last `m` clusters match its first `m`; after it, the text
/// kept and the text held back are the clusters `q`, which match those from `a` to `k`.
pub open spec fn between_inv(
    ic: bool,
    g: Seq<Seq<char>>,
    sm: Seq<Seq<char>>,
    em: Seq<Seq<char>>,
    k: int,
    st: BetweenState,
    a: int,
    q: Seq<Seq<char>>,
) -> bool {
    let (started, m, pe, temp, temp2, out) = st;
    &&& 0 <= k <= g.len()
    &&& forall|j: int| 0 <= j < out.len() ==> is_between_piece(ic, g, sm, em, #[trigger] out[j])
    &&& !started ==> {
        &&& temp.len() == 0
        &&& temp2.len() == 0
        &&& 0 <= m <= k
        &&& (sm.len() > 0 ==> m < sm.len())
        &&& (sm.len() == 0 ==> m == 0)
        &&& forall|j: int| 0 <= j < m ==> geq(ic, #[trigger] g[k - m + j], sm[j])
    }
    &&& started ==> {
        &&& start_matched_before(ic, g, sm, a)
        &&& a <= k
        &&& q.len() == k - a
        &&& (forall|j: int| 0 <= j < q.len() ==> geq(ic, #[trigger] g[a + j], q[j]))
        &&& 0 <= m <= k - a
        &&& (em.len() > 0 ==> m < em.len())
        &&& (em.len() == 0 ==> m == 0)
        &&& temp == q.take(k - a - m).flatten()
        &&& temp2 == q.skip(k - a - m).flatten()
    }
}

proof fn lemma_flatten_take_skip(q: Seq<Seq<char>>, n: int)
    requires
        0 <= n <= q.len(),
    ensures
        q.take(n).flatten() + q.skip(n).flatten() == q.flatten(),
{
    assert(q =~= q.take(n) + q.skip(n));
    vstd::seq_lib::lemma_flatten_concat(q.take(n), q.skip(n));
}

proof fn lemma_between_run_pieces(
    ic: bool,
    sm: Seq<Seq<char>>,
    em: Seq<Seq<char>>,
    limit: i32,
    g: Seq<Seq<char>>,
    k: int,
    st: BetweenState,
    a: int,
    q: Seq<Seq<char>>,
)
    requires
        between_inv(ic, g, sm, em, k, st, a, q),
    ensures
        forall|j: int|
            0 <= j < between_run(ic, sm, em, limit, g, k, st).len() ==> is_between_piece(
                ic,
                g,
                sm,
                em,
                #[trigger] between_run(ic, sm, em, limit, g, k, st)[j],
            ),
    decreases g.len() - k,
{
    if k >= g.len() {
        return;
    }
    let (started, m, pe, temp, temp2, out) = st;
    let c = g[k];
    let sc = sm.len() as int;
    let ec = em.len() as int;
    let (st2, stop) = between_step(ic, sm, em, limit, st, c);
    assert(between_run(ic, sm, em, limit, g, k, st) == (if stop {
        st2.5
    } else {
        between_run(ic, sm, em, limit, g, k + 1, st2)
    }));
    if !started {
        assert(!stop);
        if sc == 0 {
            lemma_between_run_pieces(ic, sm, em, limit, g, k + 1, st2, a, q);
        } else if geq(ic, c, sm[m]) {
            if m + 1 == sc {
                assert forall|j: int| 0 <= j < sc implies geq(ic, #[trigger] g[k + 1 - sc + j], sm[j]) by {
                    if j < m {
                        assert(g[k + 1 - sc + j] == g[k - m + j]);
                    }
                }
                let q2 = Seq::<Seq<char>>::empty();
                assert(q2.take(0) =~= q2);
                assert(q2.skip(0) =~= q2);
                assert(temp =~= q2.take(0).flatten());
                assert(temp2 =~= q2.skip(0).flatten());
                lemma_between_run_pieces(ic, sm, em, limit, g, k + 1, st2, k + 1, q2);
            } else {
                assert forall|j: int| 0 <= j < m + 1 implies geq(ic, #[trigger] g[k + 1 - (m + 1) + j], sm[j]) by {
                    if j < m {
                        assert(g[k + 1 - (m + 1) + j] == g[k - m + j]);
                    }
                }
                lemma_between_run_pieces(ic, sm, em, limit, g, k + 1, st2, a, q);
            }
        } else {
            lemma_between_run_pieces(ic, sm, em, limit, g, k + 1, st2, a, q);
        }
    } else {
        let n = k - a - m;
        lemma_flatten_take_skip(q, n);
        // the clusters of the new state, and the piece pushed (if any)
        let (q2, m1, t1) = if ec == 0 {
            (q, m, temp)
        } else {
            let e = if pe < ec { em[pe] } else { em[0] };
            if geq(ic, c, e) {
                (q.push(e), m + 1, temp)
            } else if geq(ic, c, em[0]) {
                (q.push(em[0]), 1int, temp + temp2)
            } else {
                (q.push(c), 0int, temp + temp2 + c)
            }
        };
        if ec > 0 {
            let e = if pe < ec { em[pe] } else { em[0] };
            assert(q2.len() == k + 1 - a);
            assert forall|j: int| 0 <= j < q2.len() implies geq(ic, #[trigger] g[a + j], q2[j]) by {
                if j < q.len() {
                    assert(q2[j] == q[j]);
                }
            }
            let n2 = k + 1 - a - m1;
            if geq(ic, c, e) {
                assert(q2.take(n2) =~= q.take(n));
                assert(q2.skip(n2) =~= q.skip(n).push(e));
                q.skip(n).lemma_flatten_push(e);
            } else if geq(ic, c, em[0]) {
                assert(q2.take(n2) =~= q);
                assert(q2.skip(n2) =~= seq![em[0]]);
                seq![em[0]].lemma_flatten_one_element();
            } else {
                assert(q2.take(n2) =~= q2);
                assert(q2.skip(n2) =~= Seq::<Seq<char>>::empty());
                q.lemma_flatten_push(c);
                assert(t1 =~= q2.flatten());
            }
            assert(t1 == q2.take(n2).flatten());
            if m1 == ec {
                let b = a + n2;
                let qp = q2.take(n2);
                assert forall|j: int| 0 <= j < qp.len() implies geq(ic, #[trigger] g[a + j], qp[j]) by {
                    assert(qp[j] == q2[j]);
                }
                assert(piece_at(ic, g, sm, em, t1, a, b, qp));
                assert(is_between_piece(ic, g, sm, em, t1));
                let out2 = out.push(t1);
                assert forall|j: int| 0 <= j < out2.len() implies is_between_piece(ic, g, sm, em, #[trigger] out2[j]) by {
                    if j < out.len() {
                        assert(out2[j] == out[j]);
                    }
                }
                assert(st2.5 == out2);
                if !stop {
                    lemma_between_run_pieces(ic, sm, em, limit, g, k + 1, st2, a, q);
                }
            } else {
                assert(st2 == (true, m1, st2.2, t1, st2.4, out));
                assert(st2.4 == q2.skip(n2).flatten());
                lemma_between_run_pieces(ic, sm, em, limit, g, k + 1, st2, a, q2);
            }
        } else {
            assert(m == 0);
            assert(q.take(k - a) =~= q);
            assert(piece_at(ic, g, sm, em, temp, a, k, q));
            assert(is_between_piece(ic, g, sm, em, temp));
            let out2 = out.push(temp);
            assert forall|j: int| 0 <= j < out2.len() implies is_between_piece(ic, g, sm, em, #[trigger] out2[j]) by {
                if j < out.len() {
                    assert(out2[j] == out[j]);
                }
            }
            assert(st2.5 == out2);
            if !stop {
                lemma_between_run_pieces(ic, sm, em, limit, g, k + 1, st2, a, q);
            }
        }
    }
}

/// `between` loses and invents no characters: every text it returns is a run of clusters of
/// the input (each equal to the input's, or, ignoring case, with the same upper case) that
/// directly follows a match of the start marker, with room after it for the end marker.
pub proof fn lemma_between_pieces(s: Seq<char>, start: Seq<char>, end: Seq<char>, limit: i32, ic: bool)
    ensures
        forall|j: int|
            0 <= j < spec_between(s, start, end, limit, ic).len() ==> is_between_piece(
                ic,
                spec_graphemes(s),
                spec_graphemes(start),
                spec_graphemes(end),
                #[trigger] spec_between(s, start, end, limit, ic)[j],
            ),
{
    let g = spec_graphemes(s);
    let st0: BetweenState = (false, 0, 0, Seq::empty(), Seq::empty(), Seq::empty());
    lemma_between_run_pieces(ic, spec_graphemes(start), spec_graphemes(end), limit, g, 0, st0, 0, Seq::empty());
}

/// Compared case-sensitively, every text that `between` returns is exactly the text of the
/// input's clusters `[a, b)`, where a match of the start marker ends at `a`.
pub proof fn lemma_between_pieces_exact(s: Seq<char>, start: Seq<char>, end: Seq<char>, limit: i32, j: int)
    requires
        0 <= j < spec_between(s, start, end, limit, false).len(),
    ensures
        exists|a: int, b: int|
            #![trigger spec_graphemes(s).subrange(a, b)]
            start_matched_before(false, spec_graphemes(s), spec_graphemes(start), a) && a <= b && b
                + spec_graphemes(end).len() <= spec_graphemes(s).len()
                && spec_between(s, start, end, limit, false)[j] == spec_graphemes(s).subrange(a, b).flatten(),
{
    let g = spec_graphemes(s);
    lemma_between_pieces(s, start, end, limit, false);
    let piece = spec_between(s, start, end, limit, false)[j];
    assert(is_between_piece(false, g, spec_graphemes(start), spec_graphemes(end), piece));
    let (a, b, q) = choose|a: int, b: int, q: Seq<Seq<char>>|
        piece_at(false, g, spec_graphemes(start), spec_graphemes(end), piece, a, b, q);
    assert forall|i: int| 0 <= i < q.len() implies q[i] == g.subrange(a, b)[i] by {
        assert(geq(false, g[a + i], q[i]));
    }
    assert(q =~= g.subrange(a, b));
}

/// Taking all clusters of a string from 0 gives the string back.
pub proof fn lemma_substring_whole(s: Seq<char>)
    requires
        seg_facts(s),
        glen(s) > 0,
    ensures
        spec_substring(s, 0, glen(s)) == s,
{
    let g = spec_graphemes(s);
    assert(substring_gs(g, 0, glen(s)) =~= g);
}

/// A right-trimmed string is a prefix of the string.
pub proof fn lemma_rtrim_prefix(s: Seq<char>)
    requires
        seg_facts(s),
    ensures
        spec_rtrim(s).is_prefix_of(s),
{
    let g = spec_graphemes(s);
    lemma_skip_trailing_is_take(g);
    let k = choose|k: int| 0 <= k <= g.len() && skip_trailing_ws(g) == g.take(k);
    assert(g == g.take(k) + g.skip(k));
    vstd::seq_lib::lemma_flatten_concat(g.take(k), g.skip(k));
}

proof fn lemma_skip_trailing_is_take(g: Seq<Seq<char>>)
    ensures
        exists|k: int| 0 <= k <= g.len() && skip_trailing_ws(g) == g.take(k),
    decreases g.len(),
{
    if g.len() > 0 && crate::stringops::is_ws(g.last()) {
        lemma_skip_trailing_is_take(g.drop_last());
        let k = choose|k: int| 0 <= k <= g.drop_last().len() && skip_trailing_ws(g.drop_last()) == g.drop_last().take(k);
        assert(g.drop_last().take(k) == g.take(k));
    } else {
        assert(g.take(g.len() as int) == g);
    }
}

/// `get_args` loses and adds no argument: its groups, concatenated, are the arguments in
/// order.
pub proof fn lemma_get_args_keeps_order(args: Seq<Seq<char>>, sep: Seq<char>)
    ensures
        get_args_fold(args, sep).0.flatten() == args,
    decreases args.len(),
{
    if args.len() > 0 {
        let p = args.drop_last();
        let a = args.last();
        lemma_get_args_keeps_order(p, sep);
        let (res, slash) = get_args_fold(p, sep);
        if spec_starts_with(a, sep, true) {
            res.lemma_flatten_push(seq![a]);
            assert(args =~= p.push(a));
            assert(p + seq![a] =~= p.push(a));
        } else {
            let res1 = if res.len() == 0 || !slash {
                res.push(Seq::empty())
            } else {
                res
            };
            if res.len() == 0 || !slash {
                res.lemma_flatten_push(Seq::<Seq<char>>::empty());
                assert(res.flatten() + Seq::<Seq<char>>::empty() =~= res.flatten());
            }
            assert(res1.flatten() == p);
            let n = res1.len() as int;
            let front = res1.drop_last();
            assert(res1 =~= front.push(res1.last()));
            front.lemma_flatten_push(res1.last());
            let res2 = res1.update(n - 1, res1.last().push(a));
            assert(res2 =~= front.push(res1.last().push(a)));
            front.lemma_flatten_push(res1.last().push(a));
            assert(args =~= p.push(a));
            assert(front.flatten() + res1.last().push(a) =~= (front.flatten() + res1.last()).push(a));
        }
    }
}

/// With a positive `limit`, `between` returns at most `limit` texts.
pub proof fn lemma_between_limit(s: Seq<char>, start: Seq<char>, end: Seq<char>, limit: i32, ic: bool)
    requires
        limit > 0,
    ensures
        spec_between(s, start, end, limit, ic).len() <= limit,
{
    let g = spec_graphemes(s);
    lemma_between_run_limit(
        ic,
        spec_graphemes(start),
        spec_graphemes(end),
        limit,
        g,
        0,
        (false, 0, 0, Seq::empty(), Seq::empty(), Seq::empty()),
    );
}

proof fn lemma_between_run_limit(
    ic: bool,
    sm: Seq<Seq<char>>,
    em: Seq<Seq<char>>,
    limit: i32,
    g: Seq<Seq<char>>,
    k: int,
    st: BetweenState,
)
    requires
        limit > 0,
        st.5.len() < limit,
    ensures
        between_run(ic, sm, em, limit, g, k, st).len() <= limit,
    decreases g.len() - k,
{
    if 0 <= k < g.len() {
        let (st2, stop) = between_step(ic, sm, em, limit, st, g[k]);
        assert(st2.5.len() <= st.5.len() + 1);
        if !stop {
            assert(st2.5.len() < limit);
            lemma_between_run_limit(ic, sm, em, limit, g, k + 1, st2);
        }
    }
}

/// Every address that `url_between` returns starts with the prefix.
pub proof fn lemma_url_between_prefix(prefix: Seq<char>, s: Seq<char>)
    ensures
        forall|k: int|
            0 <= k < spec_url_between(prefix, s).len() ==> prefix.is_prefix_of(
                #[trigger] spec_url_between(prefix, s)[k],
            ),
{
    let r = spec_url_between(prefix, s);
    assert forall|k: int| 0 <= k < r.len() implies prefix.is_prefix_of(#[trigger] r[k]) by {
        let u = spec_between(s, prefix, seq!['"'], 0, true)[k];
        assert(r[k] == prefix + crate::path::clean_url(u));
        assert(r[k].subrange(0, prefix.len() as int) =~= prefix);
    }
}

/// Every path that `mul_string` returns has as many segments as the pattern.
pub proof fn lemma_mul_string_segments(
    dirs: Seq<char>,
    sep: Seq<char>,
    ost: Seq<char>,
    oen: Seq<char>,
    osep: Seq<char>,
)
    ensures
        forall|k: int|
            0 <= k < spec_mul_string(dirs, sep, ost, oen, osep).len() ==> split_spec(
                #[trigger] spec_mul_string(dirs, sep, ost, oen, osep)[k],
                sep,
            ).len() == split_spec(dirs, sep).len(),
{
    let d = split_spec(dirs, sep);
    let all = crate::stringops::mul_inner(d, Seq::empty(), sep, ost, oen, osep, 0);
    lemma_keep_with_pieces(all, sep, d.len() as int);
}

proof fn lemma_keep_with_pieces(vs: Seq<Seq<char>>, sep: Seq<char>, c: int)
    ensures
        forall|k: int|
            0 <= k < keep_with_pieces(vs, sep, c).len() ==> split_spec(
                #[trigger] keep_with_pieces(vs, sep, c)[k],
                sep,
            ).len() == c,
    decreases vs.len(),
{
    if vs.len() > 0 {
        lemma_keep_with_pieces(vs.drop_last(), sep, c);
        let r = keep_with_pieces(vs.drop_last(), sep, c);
        if split_spec(vs.last(), sep).len() == c {
            assert forall|k: int| 0 <= k < r.push(vs.last()).len() implies split_spec(
                #[trigger] r.push(vs.last())[k],
                sep,
            ).len() == c by {
                if k < r.len() {
                    assert(r.push(vs.last())[k] == r[k]);
                }
            }
        }
    }
}

/// The decimal text of a number has only digits and reads back as the number.
pub proof fn lemma_decimal_digits(n: nat)
    ensures
        all_digits(spec_decimal(n)),
        digits_value(spec_decimal(n)) == n,
        spec_decimal(n).len() > 0,
    decreases n,
{
    let d = spec_decimal(n);
    lemma_digit_char(n % 10);
    if n < 10 {
        assert(d.drop_last() =~= Seq::<char>::empty());
        assert(n % 10 == n);
        assert(digits_value(d) == digits_value(d.drop_last()) * 10 + (d.last() as int - '0' as int));
        assert(digits_value(d.drop_last()) == 0);
    } else {
        lemma_decimal_digits(n / 10);
        let p = spec_decimal(n / 10);
        assert(d.drop_last() =~= p);
        assert(d.last() == crate::sd_req::digit_char(n % 10));
        assert(digits_value(d) == digits_value(p) * 10 + (d.last() as int - '0' as int));
        assert(n == (n / 10) * 10 + n % 10) by (nonlinear_arith);
        assert forall|i: int| 0 <= i < d.len() implies crate::types::is_digit(#[trigger] d[i]) by {
            if i < p.len() {
                assert(d[i] == p[i]);
            }
        }
    }
}

proof fn lemma_digit_char(m: nat)
    requires
        m < 10,
    ensures
        crate::sd_req::digit_char(m) as int - '0' as int == m,
        crate::types::is_digit(crate::sd_req::digit_char(m)),
{
}

/// The decimal text of a `u32` parses back to it as an `i64` and as a `u64`: `str_to_i64`
/// and `str_to_u64` undo `decimal`.
pub proof fn lemma_decimal_parses(n: u32)
    ensures
        parse_in_range_spec(spec_decimal(n as nat), true, i64::MIN as int, i64::MAX as int) == Some(n as int),
        parse_in_range_spec(spec_decimal(n as nat), false, 0, u64::MAX as int) == Some(n as int),
{
    lemma_decimal_digits(n as nat);
    let d = spec_decimal(n as nat);
    assert(crate::types::is_digit(d[0]));
}

/// The text that `signed_decimal` writes for an `i64` parses back to it: `str_to_i64`
/// undoes `signed_decimal`, so a configuration integer read as text and written back as an
/// override keeps its value.
pub proof fn lemma_signed_decimal_parses(i: i64)
    ensures
        parse_in_range_spec(spec_signed_decimal(i as int), true, i64::MIN as int, i64::MAX as int) == Some(
            i as int,
        ),
{
    if i < 0 {
        let m = (-(i as int)) as nat;
        lemma_decimal_digits(m);
        let d = spec_decimal(m);
        let t = seq!['-'] + d;
        assert(t.skip(1) =~= d);
        assert(t[0] == '-');
    } else {
        lemma_decimal_digits(i as nat);
        let d = spec_decimal(i as nat);
        assert(crate::types::is_digit(d[0]));
    }
}

/// The seeds of the configuration decide the requests of a run: when both "seed_start" and
/// "seed_end" are non-negative numbers with the start not after the end, one request is made
/// per seed from the start to the end; when either is missing, negative or no number, the
/// amount asked for is requested with the configured seed.
pub proof fn lemma_configured_seeds_plan(start_text: Seq<char>, end_text: Seq<char>, count: i32)
    requires
        count >= 1,
    ensures
        ({
            let (a, b) = spec_config_seeds(start_text, end_text);
            &&& (seed_value(start_text) is Some && seed_value(end_text) is Some && a <= b) ==> spec_request_plan(
                count,
                a as i64,
                b as i64,
            ) == RequestPlan::SeedRange(a as i64, b as i64)
            &&& (seed_value(start_text) is None || seed_value(end_text) is None) ==> spec_request_plan(
                count,
                a as i64,
                b as i64,
            ) == RequestPlan::Repeat(count)
        }),
{
}

/// A path splits into its directory, its last separator cluster and its file name: with a
/// separator, the directory is the clusters before it and the three concatenate back to the
/// path (the file name is empty when the separator ends the path); without one, the
/// directory is "." and the file name is the path. (`get_filename` and `get_directory_name`
/// establish the `seg_facts` that this asks for.)
pub proof fn lemma_path_split(f: Seq<char>)
    requires
        seg_facts(f),
        seg_facts(seq!['/']),
        seg_facts(seq!['\\']),
    ensures
        last_dir_sep(f) == -1 ==> spec_get_directory_name(f) == seq!['.'] && spec_get_filename(f) == f,
        last_dir_sep(f) != -1 ==> {
            &&& 0 <= last_dir_sep(f) < glen(f)
            &&& spec_get_directory_name(f) == spec_graphemes(f).subrange(0, last_dir_sep(f)).flatten()
            &&& spec_get_directory_name(f) + spec_graphemes(f)[last_dir_sep(f)] + spec_get_filename(f) == f
        },
{
    let g = spec_graphemes(f);
    let i = last_dir_sep(f);
    let c = g.len() as int;
    crate::path::lemma_single_char_clusters(seq!['/']);
    crate::path::lemma_single_char_clusters(seq!['\\']);
    crate::stringops::lemma_last_index_of_bounds(true, g, spec_graphemes(seq!['/']));
    crate::stringops::lemma_last_index_of_bounds(true, g, spec_graphemes(seq!['\\']));
    if i != -1 {
        assert(0 <= i < c);
        assert(g =~= g.subrange(0, i) + seq![g[i]] + g.subrange(i + 1, c));
        vstd::seq_lib::lemma_flatten_concat(g.subrange(0, i) + seq![g[i]], g.subrange(i + 1, c));
        vstd::seq_lib::lemma_flatten_concat(g.subrange(0, i), seq![g[i]]);
        seq![g[i]].lemma_flatten_one_element();
        if i > 0 {
            assert(substring_gs(g, 0, i) == g.subrange(0, i));
        } else {
            assert(g.subrange(0, 0) =~= Seq::<Seq<char>>::empty());
            assert(spec_substring(f, 0, i) =~= Seq::<char>::empty());
        }
        if i < c - 1 {
            assert(substring_gs(g, i + 1, c - i - 1) =~= g.subrange(i + 1, c));
        } else {
            assert(g.subrange(i + 1, c) =~= Seq::<Seq<char>>::empty());
        }
    }
}

/// A scan for a one-cluster pattern stops just past the first cluster from `k` on that
/// matches it, and fails only when none does.
proof fn lemma_scan_single(ic: bool, t: Seq<Seq<char>>, p: Seq<char>, k: int)
    requires
        0 <= k <= t.len(),
    ensures
        scan(ic, t, seq![p], k, 0) == -1 ==> forall|j: int| k <= j < t.len() ==> !geq(ic, #[trigger] t[j], p),
        scan(ic, t, seq![p], k, 0) != -1 ==> {
            let n = scan(ic, t, seq![p], k, 0);
            &&& k < n <= t.len()
            &&& geq(ic, t[n - 1], p)
            &&& forall|j: int| k <= j < n - 1 ==> !geq(ic, #[trigger] t[j], p)
        },
    decreases t.len() - k,
{
    if k < t.len() {
        lemma_scan_single(ic, t, p, k + 1);
    }
}

/// A file name is its part before the last "." (`get_filename_without_extension`)
/// followed by its extension (`get_extension`). The extension is empty when no cluster is
/// ".", and otherwise begins with the last cluster that is "." (ignoring case), no later
/// cluster being one. (`get_extension` establishes the `seg_facts` that this asks for.)
pub proof fn lemma_extension_split(f: Seq<char>)
    requires
        seg_facts(f),
        seg_facts(seq!['.']),
    ensures
        spec_strip_extension(f) + spec_get_extension(f) == f,
        spec_last_index_of(f, seq!['.'], true) == -1 ==> {
            &&& spec_get_extension(f) == Seq::<char>::empty()
            &&& forall|j: int| 0 <= j < glen(f) ==> !geq(true, #[trigger] spec_graphemes(f)[j], seq!['.'])
        },
        spec_last_index_of(f, seq!['.'], true) != -1 ==> {
            let i = spec_last_index_of(f, seq!['.'], true);
            &&& 0 <= i < glen(f)
            &&& spec_get_extension(f) == spec_graphemes(f).subrange(i, glen(f)).flatten()
            &&& geq(true, spec_graphemes(f)[i], seq!['.'])
            &&& forall|j: int| i < j < glen(f) ==> !geq(true, #[trigger] spec_graphemes(f)[j], seq!['.'])
        },
{
    let g = spec_graphemes(f);
    let c = g.len() as int;
    let d = seq!['.'];
    crate::path::lemma_single_char_clusters(d);
    let sg = spec_graphemes(d);
    assert(sg.reverse() =~= seq![d]);
    let t = g.reverse();
    let i = spec_last_index_of(f, d, true);
    if c >= 1 {
        lemma_scan_single(true, t, d, 0);
    }
    if i == -1 {
        assert forall|j: int| 0 <= j < c implies !geq(true, #[trigger] g[j], d) by {
            assert(t[c - 1 - j] == g[j]);
        }
        assert(g.subrange(0, c) =~= g);
    } else {
        let n = scan(true, t, seq![d], 0, 0);
        assert(i == c - n);
        assert(t[n - 1] == g[i]);
        assert forall|j: int| i < j < c implies !geq(true, #[trigger] g[j], d) by {
            assert(t[c - 1 - j] == g[j]);
        }
        assert(g =~= g.subrange(0, i) + g.subrange(i, c));
        vstd::seq_lib::lemma_flatten_concat(g.subrange(0, i), g.subrange(i, c));
        if i > 0 {
            assert(substring_gs(g, 0, i) == g.subrange(0, i));
        } else {
            assert(g.subrange(0, 0) =~= Seq::<Seq<char>>::empty());
            assert(spec_substring(f, 0, i) =~= Seq::<char>::empty());
        }
        assert(substring_gs(g, i, c - i) =~= g.subrange(i, c));
    }
}

/// Joining splits off the first part again.
proof fn lemma_join_front(parts: Seq<Seq<char>>, sep: Seq<char>)
    requires
        parts.len() >= 2,
    ensures
        join_spec(parts, sep) == parts[0] + sep + join_spec(parts.drop_first(), sep),
    decreases parts.len(),
{
    if parts.len() > 2 {
        lemma_join_front(parts.drop_last(), sep);
        assert(parts.drop_last().drop_first() =~= parts.drop_first().drop_last());
        assert(parts.drop_first().last() == parts.last());
        assert(parts.drop_last()[0] == parts[0]);
        let a = parts[0];
        let b = join_spec(parts.drop_first().drop_last(), sep);
        assert(join_spec(parts, sep) =~= a + sep + (b + sep + parts.last()));
    } else {
        assert(parts.drop_first().len() == 1);
        assert(parts.drop_last().len() == 1);
        assert(parts.drop_first()[0] == parts[1]);
        assert(parts.drop_last()[0] == parts[0]);
        assert(join_spec(parts.drop_last(), sep) == parts[0]);
        assert(join_spec(parts.drop_first(), sep) == parts[1]);
        assert(parts.last() == parts[1]);
        assert(join_spec(parts, sep) == join_spec(parts.drop_last(), sep) + sep + parts.last());
    }
}

proof fn lemma_find_char_from(s: Seq<char>, c: char, k: int, stop: int)
    requires
        0 <= k <= stop,
        stop <= s.len(),
        forall|j: int| k <= j < stop ==> s[j] != c,
        stop < s.len() ==> s[stop] == c,
    ensures
        find_from(s, seq![c], k) == (if stop < s.len() {
            stop
        } else {
            -1
        }),
    decreases stop - k,
{
    if k < stop {
        assert(s.subrange(k, k + 1)[0] == s[k]);
        assert(s.subrange(k, k + 1) != seq![c]);
        lemma_find_char_from(s, c, k + 1, stop);
    } else if stop < s.len() {
        assert(s.subrange(k, k + 1) =~= seq![c]);
    }
}

/// With a one-character separator that no part contains, `split_str` undoes `join`.
pub proof fn lemma_split_join(parts: Seq<Seq<char>>, c: char)
    requires
        parts.len() >= 1,
        forall|i: int| 0 <= i < parts.len() ==> !(#[trigger] parts[i]).contains(c),
    ensures
        split_spec(join_spec(parts, seq![c]), seq![c]) == parts,
    decreases parts.len(),
{
    let sep = seq![c];
    if parts.len() == 1 {
        let p0 = parts[0];
        assert forall|j: int| 0 <= j < p0.len() implies p0[j] != c by {
            if p0[j] == c {
                assert(p0.contains(c));
            }
        }
        lemma_find_char_from(p0, c, 0, p0.len() as int);
        assert(split_spec(p0, sep) == seq![p0]);
        assert(seq![p0] =~= parts);
    } else {
        lemma_join_front(parts, sep);
        let p0 = parts[0];
        let rest = parts.drop_first();
        assert forall|i: int| 0 <= i < rest.len() implies !(#[trigger] rest[i]).contains(c) by {
            assert(rest[i] == parts[i + 1]);
        }
        lemma_split_join(rest, c);
        let j = join_spec(rest, sep);
        let s = p0 + sep + j;
        assert forall|q: int| 0 <= q < p0.len() implies s[q] != c by {
            assert(s[q] == p0[q]);
            if p0[q] == c {
                assert(p0.contains(c));
            }
        }
        assert(s[p0.len() as int] == c);
        lemma_find_char_from(s, c, 0, p0.len() as int);
        assert(s.take(p0.len() as int) =~= p0);
        assert(s.skip(p0.len() as int + 1) =~= j);
        assert(seq![p0] + rest =~= parts);
    }
}

} // verus!
