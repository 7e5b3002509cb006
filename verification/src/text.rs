//! Verified substring and suffix tests over strings, used by the
//! report filters. Both work on character sequences, which for valid
//! UTF-8 agrees with byte-level matching.

use vstd::prelude::*;

verus! {

/// `sub` occurs as a contiguous run somewhere in `s`.
pub open spec fn contains_seq(s: Seq<char>, sub: Seq<char>) -> bool {
    exists|k: int|
        0 <= k && k + sub.len() <= s.len() && #[trigger] s.subrange(k, k + sub.len()) == sub
}

/// Character-by-character comparison of `s[k .. k + sub.len()]` with `sub`.
fn matches_at(s: &str, sub: &str, k: usize) -> (r: bool)
    requires
        k + sub@.len() <= s@.len(),
        s@.len() <= usize::MAX,
    ensures
        r == (s@.subrange(k as int, k + sub@.len()) == sub@),
{
    let m = sub.unicode_len();
    let mut i: usize = 0;
    while i < m
        invariant
            m == sub@.len(),
            i <= m,
            k + m <= s@.len(),
            s@.len() <= usize::MAX,
            forall|j: int| 0 <= j < i ==> s@[k + j] == sub@[j],
        decreases m - i,
    {
        if s.get_char(k + i) != sub.get_char(i) {
            assert(s@.subrange(k as int, k + sub@.len())[i as int] != sub@[i as int]);
            return false;
        }
        i += 1;
    }
    assert(s@.subrange(k as int, k + sub@.len()) =~= sub@);
    true
}

/// Literal suffix test: does `s` end with `suffix`?
pub fn str_ends_with(s: &str, suffix: &str) -> (r: bool)
    ensures
        r == suffix@.is_suffix_of(s@),
{
    let n = s.unicode_len();
    let m = suffix.unicode_len();
    if m > n {
        assert(!suffix@.is_suffix_of(s@));
        return false;
    }
    let r = matches_at(s, suffix, n - m);
    assert(s@.subrange(n - m, n as int) == s@.subrange(s@.len() - suffix@.len(), s@.len() as int));
    r
}

/// Literal substring test: does `s` contain `sub` anywhere?
pub fn str_contains(s: &str, sub: &str) -> (r: bool)
    ensures
        r == contains_seq(s@, sub@),
{
    let n = s.unicode_len();
    let m = sub.unicode_len();
    if m > n {
        return false;
    }
    if m == 0 {
        assert(contains_seq(s@, sub@)) by {
            assert(s@.subrange(0, 0 + sub@.len() as int) =~= sub@);
        }
        return true;
    }
    let mut k: usize = 0;
    while k <= n - m
        invariant
            n == s@.len(),
            m == sub@.len(),
            1 <= m <= n,
            k <= n - m + 1,
            forall|k2: int|
                0 <= k2 < k ==> #[trigger] s@.subrange(k2, k2 + sub@.len()) != sub@,
        decreases n + 1 - m - k,
    {
        if matches_at(s, sub, k) {
            return true;
        }
        k += 1;
    }
    false
}

} // verus!
