//! Substring containment on character sequences.

use vstd::prelude::*;

verus! {

/// `needle` occurs in `hay` starting at character offset `k`.
pub open spec fn occurs_at(needle: Seq<char>, hay: Seq<char>, k: int) -> bool {
    &&& 0 <= k
    &&& k + needle.len() <= hay.len()
    &&& hay.subrange(k, k + needle.len()) == needle
}

/// `needle` occurs somewhere in `hay` as a contiguous run of characters.
pub open spec fn is_substring(needle: Seq<char>, hay: Seq<char>) -> bool {
    exists|k: int| occurs_at(needle, hay, k)
}

/// The characters of `s`, in order.
pub fn chars_of(s: &str) -> (v: Vec<char>)
    ensures
        v@ == s@,
{
    let mut v: Vec<char> = Vec::new();
    for c in it: s.chars()
        invariant
            it.seq() == s@,
            v@ == s@.take(it.index() as int),
    {
        v.push(c);
        assert(v@ == s@.take(it.index() + 1));
    }
    assert(v@ == s@);
    v
}

/// Whether `needle` occurs in `hay` at offset `k`.
pub fn matches_at(needle: &Vec<char>, hay: &Vec<char>, k: usize) -> (r: bool)
    ensures
        r == occurs_at(needle@, hay@, k as int),
{
    let n: usize = needle.len();
    if n > hay.len() || k > hay.len() - n {
        return false;
    }
    let mut j: usize = 0;
    while j < n
        invariant
            n == needle.len(),
            j <= n,
            k + n <= hay.len(),
            forall|t: int| 0 <= t < j ==> hay[k + t] == needle[t],
        decreases n - j,
    {
        if hay[k + j] != needle[j] {
            proof {
                let w = hay@.subrange(k as int, k + n);
                assert(w[j as int] == hay[k + j]);
            }
            return false;
        }
        j += 1;
    }
    assert(hay@.subrange(k as int, k + n) =~= needle@);
    true
}

/// Whether `needle` occurs anywhere in `hay`.
pub fn contains_chars(hay: &Vec<char>, needle: &Vec<char>) -> (r: bool)
    ensures
        r == is_substring(needle@, hay@),
{
    if needle.len() > hay.len() {
        return false;
    }
    let last: usize = hay.len() - needle.len();
    let mut k: usize = 0;
    while k < last
        invariant
            last + needle.len() == hay.len(),
            k <= last,
            forall|t: int| 0 <= t < k ==> !occurs_at(needle@, hay@, t),
        decreases last - k,
    {
        if matches_at(needle, hay, k) {
            return true;
        }
        k += 1;
    }
    matches_at(needle, hay, last)
}

/// Whether `needle` occurs anywhere in `hay`.
pub fn str_contains(hay: &str, needle: &str) -> (r: bool)
    ensures
        r == is_substring(needle@, hay@),
{
    let h = chars_of(hay);
    let n = chars_of(needle);
    contains_chars(&h, &n)
}

} // verus!
