//! Number conversions: decimal parsing as `str::parse` does it for integer types.

use vstd::prelude::*;

verus! {

pub open spec fn is_digit(c: char) -> bool {
    '0' <= c && c <= '9'
}

pub open spec fn all_digits(s: Seq<char>) -> bool {
    forall|i: int| 0 <= i < s.len() ==> is_digit(#[trigger] s[i])
}

/// The number written by the decimal digits `s` (0 for no digits).
pub open spec fn digits_value(s: Seq<char>) -> int
    decreases s.len(),
{
    if s.len() == 0 {
        0
    } else {
        digits_value(s.drop_last()) * 10 + (s.last() as int - '0' as int)
    }
}

/// The integer that `str::parse` reads from `s` before its range check: an optional `+`
/// (or `-` when `signed`) followed by at least one ASCII digit, and nothing else.
pub open spec fn parse_int_spec(s: Seq<char>, signed: bool) -> Option<int> {
    if s.len() == 0 {
        None
    } else if (s[0] == '+' || s[0] == '-') && s.len() == 1 {
        None
    } else if s[0] == '+' {
        if all_digits(s.skip(1)) {
            Some(digits_value(s.skip(1)))
        } else {
            None
        }
    } else if s[0] == '-' && signed {
        if all_digits(s.skip(1)) {
            Some(-digits_value(s.skip(1)))
        } else {
            None
        }
    } else if all_digits(s) {
        Some(digits_value(s))
    } else {
        None
    }
}

/// What parsing `s` into an integer type with range `[lo, hi]` gives.
pub open spec fn parse_in_range_spec(s: Seq<char>, signed: bool, lo: int, hi: int) -> Option<int> {
    match parse_int_spec(s, signed) {
        Some(v) => if lo <= v && v <= hi {
            Some(v)
        } else {
            None
        },
        None => None,
    }
}

proof fn lemma_digits_value_nonneg(s: Seq<char>)
    requires
        all_digits(s),
    ensures
        digits_value(s) >= 0,
    decreases s.len(),
{
    if s.len() > 0 {
        lemma_digits_value_nonneg(s.drop_last());
    }
}

/// More digits never make a smaller number.
proof fn lemma_digits_value_mono(s: Seq<char>, k: int)
    requires
        all_digits(s),
        0 <= k <= s.len(),
    ensures
        digits_value(s.take(k)) <= digits_value(s),
    decreases s.len() - k,
{
    if k < s.len() {
        assert(s.take(k + 1).drop_last() =~= s.take(k));
        lemma_digits_value_nonneg(s.take(k));
        lemma_digits_value_mono(s, k + 1);
    } else {
        assert(s.take(k) =~= s);
    }
}

/// Parses `s` as `str::parse` does for an integer type whose values are `[lo, hi]`.
fn parse_in_range(s: &str, signed: bool, lo: i128, hi: i128) -> (r: Option<i128>)
    requires
        -18446744073709551616 <= lo <= 0 <= hi <= 18446744073709551616,
    ensures
        r == (match parse_in_range_spec(s@, signed, lo as int, hi as int) {
            Some(v) => Some(v as i128),
            None => None,
        }),
{
    let n = s.unicode_len();
    if n == 0 {
        return None;
    }
    let first = s.get_char(0);
    if (first == '+' || first == '-') && n == 1 {
        return None;
    }
    let neg = first == '-' && signed;
    let start: usize = if first == '+' || neg { 1 } else { 0 };
    let ghost ds = s@.skip(start as int);
    let bound: u128 = if neg { (0 - lo) as u128 } else { hi as u128 };
    let mut mag: u128 = 0;
    let mut i: usize = start;
    while i < n
        invariant
            n == s@.len(),
            n >= 1,
            first == s@[0],
            !((first == '+' || first == '-') && n == 1),
            neg == (first == '-' && signed),
            start == (if first == '+' || neg { 1usize } else { 0usize }),
            -18446744073709551616 <= lo <= 0 <= hi <= 18446744073709551616,
            bound == (if neg { -lo } else { hi as int }),
            start <= i <= n,
            ds == s@.skip(start as int),
            bound <= 18446744073709551616,
            all_digits(ds.take(i - start)),
            mag == digits_value(ds.take(i - start)),
            mag <= bound,
        decreases n - i,
    {
        let c = s.get_char(i);
        assert(ds[i - start] == c);
        if !('0' <= c && c <= '9') {
            assert(!all_digits(ds));
            proof {
                if start == 0 {
                    assert(ds =~= s@);
                }
            }
            return None;
        }
        let ghost t = ds.take(i - start + 1);
        assert(t.drop_last() =~= ds.take(i - start));
        assert(all_digits(t));
        let d = (c as u32 - '0' as u32) as u128;
        mag = mag * 10 + d;
        i += 1;
        if mag > bound {
            proof {
                assert(ds.take(i - start) == t);
                if all_digits(ds) {
                    lemma_digits_value_mono(ds, i - start);
                }
                if start == 0 {
                    assert(ds =~= s@);
                }
            }
            return None;
        }
    }
    assert(ds.take(n - start) =~= ds);
    if start == 0 {
        assert(ds =~= s@);
    }
    proof {
        lemma_digits_value_nonneg(ds);
    }
    if neg {
        Some(0 - (mag as i128))
    } else {
        Some(mag as i128)
    }
}

/// `(true, v)` when `s` parses as the `i32` `v`, else `(false, 0)`.
pub fn str_to_i32(s: String) -> (r: (bool, i32))
    ensures
        r == (match parse_in_range_spec(s@, true, i32::MIN as int, i32::MAX as int) {
            Some(v) => (true, v as i32),
            None => (false, 0i32),
        }),
{
    match parse_in_range(s.as_str(), true, i32::MIN as i128, i32::MAX as i128) {
        Some(v) => (true, v as i32),
        None => (false, 0),
    }
}

/// `(true, v)` when `s` parses as the `i64` `v`, else `(false, 0)`.
pub fn str_to_i64(s: String) -> (r: (bool, i64))
    ensures
        r == (match parse_in_range_spec(s@, true, i64::MIN as int, i64::MAX as int) {
            Some(v) => (true, v as i64),
            None => (false, 0i64),
        }),
{
    match parse_in_range(s.as_str(), true, i64::MIN as i128, i64::MAX as i128) {
        Some(v) => (true, v as i64),
        None => (false, 0),
    }
}

/// `(true, v)` when `s` parses as the `u64` `v`, else `(false, 0)`.
pub fn str_to_u64(s: String) -> (r: (bool, u64))
    ensures
        r == (match parse_in_range_spec(s@, false, 0, u64::MAX as int) {
            Some(v) => (true, v as u64),
            None => (false, 0u64),
        }),
{
    match parse_in_range(s.as_str(), false, 0, u64::MAX as i128) {
        Some(v) => (true, v as u64),
        None => (false, 0),
    }
}

/// `i` as a `u32`; 0 for a negative `i`, which the decimal text of `i` does not parse as.
pub fn i32_to_u32(i: i32) -> (r: u32)
    ensures
        r == (if i >= 0 { i as int } else { 0 }),
{
    if i >= 0 {
        i as u32
    } else {
        0
    }
}

} // verus!
