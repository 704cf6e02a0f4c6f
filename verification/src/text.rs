//! Character-level helpers for building and comparing metric names.

use vstd::prelude::*;

verus! {

/// True when `t` occurs at the very end of `s`.
pub open spec fn is_suffix_of(t: Seq<char>, s: Seq<char>) -> bool {
    t.len() <= s.len() && s.subrange(s.len() - t.len(), s.len() as int) == t
}

/// Character-for-character equality of two string slices.
pub fn str_eq(a: &str, b: &str) -> (r: bool)
    ensures
        r == (a@ == b@),
{
    let alen = a.unicode_len();
    let blen = b.unicode_len();
    if alen != blen {
        return false;
    }
    let mut i: usize = 0;
    while i < alen
        invariant
            alen == a@.len(),
            blen == b@.len(),
            alen == blen,
            i <= alen,
            forall|k: int| 0 <= k < i as int ==> a@[k] == b@[k],
        decreases alen - i,
    {
        if a.get_char(i) != b.get_char(i) {
            return false;
        }
        i = i + 1;
    }
    proof {
        assert(a@ =~= b@);
    }
    true
}

/// Whether `s` ends with the suffix `t`.
pub fn str_ends_with(s: &str, t: &str) -> (r: bool)
    ensures
        r == is_suffix_of(t@, s@),
{
    let slen = s.unicode_len();
    let tlen = t.unicode_len();
    if tlen > slen {
        return false;
    }
    let tail = s.substring_char(slen - tlen, slen);
    str_eq(tail, t)
}

} // verus!
