//! Splitting a string at each occurrence of a separator, as `str::split` with a `&str`
//! pattern does.

use vstd::prelude::*;

verus! {

/// `pat` occurs in `s` at position `k`.
pub open spec fn match_at(s: Seq<char>, pat: Seq<char>, k: int) -> bool {
    0 <= k && k + pat.len() <= s.len() && s.subrange(k, k + pat.len()) == pat
}

/// The first position at or after `k` where `pat` occurs in `s`, or -1.
pub open spec fn find_from(s: Seq<char>, pat: Seq<char>, k: int) -> int
    decreases s.len() + 1 - k,
{
    if k < 0 || k + pat.len() > s.len() {
        -1
    } else if s.subrange(k, k + pat.len()) == pat {
        k
    } else {
        find_from(s, pat, k + 1)
    }
}

pub proof fn lemma_find_from_bounds(s: Seq<char>, pat: Seq<char>, k: int)
    requires
        0 <= k,
    ensures
        find_from(s, pat, k) == -1 || (k <= find_from(s, pat, k) && match_at(s, pat, find_from(s, pat, k))),
        find_from(s, pat, k) != -1 ==> forall|j: int| k <= j < find_from(s, pat, k) ==> !match_at(s, pat, j),
        find_from(s, pat, k) == -1 ==> forall|j: int| k <= j ==> !match_at(s, pat, j),
    decreases s.len() + 1 - k,
{
    if !(k < 0 || k + pat.len() > s.len()) && s.subrange(k, k + pat.len()) != pat {
        lemma_find_from_bounds(s, pat, k + 1);
    }
}

/// The pieces of `s` with the empty pattern: an empty piece, each character, an empty piece.
pub open spec fn split_empty_pat(s: Seq<char>) -> Seq<Seq<char>> {
    seq![Seq::<char>::empty()] + s.map_values(|c: char| seq![c]) + seq![Seq::<char>::empty()]
}

/// The pieces of `s` between the occurrences of `pat`, taken from the left without overlap.
pub open spec fn split_spec(s: Seq<char>, pat: Seq<char>) -> Seq<Seq<char>>
    decreases s.len(),
{
    if pat.len() == 0 {
        split_empty_pat(s)
    } else {
        let k = find_from(s, pat, 0);
        if k < 0 {
            seq![s]
        } else {
            proof {
                lemma_find_from_bounds(s, pat, 0);
            }
            seq![s.take(k)] + split_spec(s.skip(k + pat.len()), pat)
        }
    }
}

/// Searching a suffix is searching the string from the suffix's start.
proof fn lemma_find_from_skip(s: Seq<char>, pat: Seq<char>, p: int, k: int)
    requires
        0 <= p <= s.len(),
        0 <= k,
    ensures
        find_from(s.skip(p), pat, k) == (if find_from(s, pat, p + k) < 0 {
            -1
        } else {
            find_from(s, pat, p + k) - p
        }),
    decreases s.len() + 1 - p - k,
{
    let t = s.skip(p);
    if !(k + pat.len() > t.len()) {
        assert(t.subrange(k, k + pat.len()) =~= s.subrange(p + k, p + k + pat.len()));
        if t.subrange(k, k + pat.len()) != pat {
            lemma_find_from_skip(s, pat, p, k + 1);
        }
    }
}

/// The first occurrence of `pat` in `s` at or after `from`.
fn find_exec(s: &str, n: usize, pat: &str, m: usize, from: usize) -> (r: Option<usize>)
    requires
        n == s@.len(),
        m == pat@.len(),
        m > 0,
        from <= n,
    ensures
        match r {
            Some(k) => find_from(s@, pat@, from as int) == k,
            None => find_from(s@, pat@, from as int) == -1,
        },
{
    let mut k = from;
    while k <= n && m <= n - k
        invariant
            n == s@.len(),
            m == pat@.len(),
            m > 0,
            from <= k,
            find_from(s@, pat@, from as int) == find_from(s@, pat@, k as int),
        decreases n - k,
    {
        let mut j: usize = 0;
        let mut same = true;
        while j < m && same
            invariant
                n == s@.len(),
                m == pat@.len(),
                k + m <= n,
                0 <= j <= m,
                same ==> forall|t: int| 0 <= t < j ==> s@[k + t] == pat@[t],
                !same ==> s@.subrange(k as int, k + m) != pat@,
            decreases m - j,
        {
            if s.get_char(k + j) != pat.get_char(j) {
                same = false;
                assert(s@.subrange(k as int, k + m)[j as int] != pat@[j as int]);
            }
            j += 1;
        }
        if same {
            assert(s@.subrange(k as int, k + m) =~= pat@);
            return Some(k);
        }
        k += 1;
    }
    None
}

/// The pieces of `s` between the occurrences of `pat`, as `str::split(s, pat)` yields them.
pub fn split_str(s: &str, pat: &str) -> (r: Vec<String>)
    ensures
        r@.map_values(|p: String| p@) == split_spec(s@, pat@),
{
    let n = s.unicode_len();
    let m = pat.unicode_len();
    let mut result: Vec<String> = Vec::new();
    if m == 0 {
        result.push(String::new());
        let mut i: usize = 0;
        while i < n
            invariant
                n == s@.len(),
                0 <= i <= n,
                result@.map_values(|p: String| p@) == seq![Seq::<char>::empty()] + s@.take(
                    i as int,
                ).map_values(|c: char| seq![c]),
            decreases n - i,
        {
            let piece = String::from_str(s.substring_char(i, i + 1));
            let ghost before = result@.map_values(|p: String| p@);
            result.push(piece);
            assert(piece@ =~= seq![s@[i as int]]);
            assert(result@.map_values(|p: String| p@) =~= before.push(seq![s@[i as int]]));
            assert(s@.take(i as int + 1).map_values(|c: char| seq![c]) =~= s@.take(i as int).map_values(
                |c: char| seq![c],
            ).push(seq![s@[i as int]]));
            i += 1;
        }
        let ghost before = result@.map_values(|p: String| p@);
        result.push(String::new());
        assert(s@.take(n as int) =~= s@);
        assert(result@.map_values(|p: String| p@) =~= before.push(Seq::<char>::empty()));
        assert(result@.map_values(|p: String| p@) =~= split_empty_pat(s@));
        return result;
    }
    let mut pos: usize = 0;
    assert(s@.skip(0) =~= s@);
    assert(result@.map_values(|p: String| p@) + split_spec(s@, pat@) =~= split_spec(s@, pat@));
    loop
        invariant
            n == s@.len(),
            m == pat@.len(),
            m > 0,
            pos <= n,
            result@.map_values(|p: String| p@) + split_spec(s@.skip(pos as int), pat@) == split_spec(
                s@,
                pat@,
            ),
        decreases n - pos,
    {
        let found = find_exec(s, n, pat, m, pos);
        proof {
            lemma_find_from_skip(s@, pat@, pos as int, 0);
            lemma_find_from_bounds(s@, pat@, pos as int);
        }
        let ghost before = result@.map_values(|p: String| p@);
        let ghost rest = s@.skip(pos as int);
        match found {
            Some(k) => {
                let piece = String::from_str(s.substring_char(pos, k));
                result.push(piece);
                assert(piece@ =~= rest.take(k - pos));
                assert(rest.skip(k - pos + m) =~= s@.skip(k + m));
                assert(split_spec(rest, pat@) == seq![rest.take(k - pos)] + split_spec(
                    rest.skip(k - pos + m),
                    pat@,
                ));
                assert(result@.map_values(|p: String| p@) =~= before.push(rest.take(k - pos)));
                assert(before.push(rest.take(k - pos)) + split_spec(s@.skip(k + m), pat@) =~= before
                    + split_spec(rest, pat@));
                pos = k + m;
            },
            None => {
                let piece = String::from_str(s.substring_char(pos, n));
                result.push(piece);
                assert(piece@ =~= rest);
                assert(split_spec(rest, pat@) == seq![rest]);
                assert(result@.map_values(|p: String| p@) =~= before.push(rest));
                assert(result@.map_values(|p: String| p@) =~= before + split_spec(rest, pat@));
                assert(s@.skip(n as int) =~= Seq::<char>::empty());
                return result;
            },
        }
    }
}


/// Whether `pat` occurs in `s`, as `str::contains` with a `&str` pattern answers.
pub fn contains_str(s: &str, pat: &str) -> (r: bool)
    ensures
        r == (find_from(s@, pat@, 0) != -1),
{
    let n = s.unicode_len();
    let m = pat.unicode_len();
    if m == 0 {
        assert(s@.subrange(0, 0) =~= pat@);
        return true;
    }
    find_exec(s, n, pat, m, 0).is_some()
}

} // verus!
