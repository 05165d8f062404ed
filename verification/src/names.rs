//! Helpers for dotted module names.
//!
//! A dotted name such as `a.b.c` consists of segments separated by `'.'`.
//! The spec functions here describe the position of the last separator and
//! the operation of stripping trailing segments, which the relative-import
//! resolution and the parent-first expansion of the builder are specified
//! against.

use vstd::prelude::*;
use vstd::string::StrSliceExecFns;

verus! {

/// Index of the last `'.'` in `s`, or `-1` if `s` has none.
pub open spec fn last_dot_index(s: Seq<char>) -> int
    decreases s.len(),
{
    if s.len() == 0 {
        -1
    } else if s.last() == '.' {
        s.len() - 1
    } else {
        last_dot_index(s.drop_last())
    }
}

/// `last_dot_index` really is the largest index holding a `'.'`.
pub proof fn lemma_last_dot_index(s: Seq<char>)
    ensures
        last_dot_index(s) == -1 ==> forall|j: int| 0 <= j < s.len() ==> s[j] != '.',
        last_dot_index(s) >= 0 ==> {
            &&& last_dot_index(s) < s.len()
            &&& s[last_dot_index(s)] == '.'
            &&& forall|j: int| last_dot_index(s) < j < s.len() ==> s[j] != '.'
        },
    decreases s.len(),
{
    if s.len() > 0 && s.last() != '.' {
        lemma_last_dot_index(s.drop_last());
        assert(forall|j: int| 0 <= j < s.len() - 1 ==> s[j] == s.drop_last()[j]);
    }
}

/// A position holding `'.'` with no later `'.'` is the last dot.
pub proof fn lemma_last_dot_at(s: Seq<char>, i: int)
    requires
        0 <= i < s.len(),
        s[i] == '.',
        forall|j: int| i < j < s.len() ==> s[j] != '.',
    ensures
        last_dot_index(s) == i,
    decreases s.len(),
{
    if i == s.len() - 1 {
    } else {
        assert(s[s.len() - 1] != '.');
        assert(forall|j: int| 0 <= j < s.len() - 1 ==> s.drop_last()[j] == s[j]);
        lemma_last_dot_at(s.drop_last(), i);
    }
}

/// A name with no `'.'` at all has no last dot.
pub proof fn lemma_no_dot(s: Seq<char>)
    requires
        forall|j: int| 0 <= j < s.len() ==> s[j] != '.',
    ensures
        last_dot_index(s) == -1,
    decreases s.len(),
{
    if s.len() > 0 {
        assert(s[s.len() - 1] != '.');
        assert(forall|j: int| 0 <= j < s.len() - 1 ==> s.drop_last()[j] == s[j]);
        lemma_no_dot(s.drop_last());
    }
}

/// The name `s` with its final segment (and the separating dot) removed,
/// or `None` if `s` is a single segment.
pub open spec fn strip_one(s: Seq<char>) -> Option<Seq<char>> {
    if last_dot_index(s) >= 0 {
        Some(s.take(last_dot_index(s)))
    } else {
        None
    }
}

/// `s` with its last `k` segments removed, or `None` if fewer than `k`
/// segments can be removed while one still remains.
pub open spec fn strip_segments(s: Seq<char>, k: nat) -> Option<Seq<char>>
    decreases k,
{
    if k == 0 {
        Some(s)
    } else {
        match strip_segments(s, (k - 1) as nat) {
            Some(t) => strip_one(t),
            None => None,
        }
    }
}

/// Once stripping has failed it fails for every larger count.
pub proof fn lemma_strip_segments_none(s: Seq<char>, k: nat, k2: nat)
    requires
        strip_segments(s, k) is None,
        k <= k2,
    ensures
        strip_segments(s, k2) is None,
    decreases k2,
{
    if k2 > k {
        lemma_strip_segments_none(s, k, (k2 - 1) as nat);
    }
}

/// Character-by-character string equality, proved against the string views.
pub fn str_eq(a: &str, b: &str) -> (r: bool)
    ensures
        r == (a@ == b@),
{
    let alen = a.unicode_len();
    let blen = b.unicode_len();
    if alen != blen {
        return false;
    }
    let mut i: usize = 0;
    while i < alen
        invariant
            0 <= i <= alen,
            alen == a@.len(),
            alen == b@.len(),
            forall|j: int| 0 <= j < i ==> a@[j] == b@[j],
        decreases alen - i,
    {
        if a.get_char(i) != b.get_char(i) {
            return false;
        }
        i += 1;
    }
    proof {
        assert(a@ =~= b@);
    }
    true
}

/// Whether `v` holds a string whose view equals `name`'s.
pub fn vec_contains_name(v: &Vec<String>, name: &str) -> (r: bool)
    ensures
        r == v.deep_view().contains(name@),
{
    let mut i: usize = 0;
    while i < v.len()
        invariant
            0 <= i <= v.len(),
            v.deep_view().len() == v.len(),
            forall|j: int| 0 <= j < v.len() ==> v.deep_view()[j] == v@[j]@,
            forall|j: int| 0 <= j < i ==> v@[j]@ != name@,
        decreases v.len() - i,
    {
        if str_eq(v[i].as_str(), name) {
            assert(v.deep_view()[i as int] == name@);
            return true;
        }
        i += 1;
    }
    assert(forall|j: int| 0 <= j < v.deep_view().len() ==> v.deep_view()[j] != name@);
    false
}

/// Whether `p` is a prefix of `s`, character by character.
pub open spec fn is_prefix_of(p: Seq<char>, s: Seq<char>) -> bool {
    p.len() <= s.len() && s.take(p.len() as int) == p
}

/// Whether `s` starts with `prefix`.
pub fn str_starts_with(s: &str, prefix: &str) -> (r: bool)
    ensures
        r == is_prefix_of(prefix@, s@),
{
    let plen = prefix.unicode_len();
    let slen = s.unicode_len();
    if plen > slen {
        proof {
            assert(!is_prefix_of(prefix@, s@));
        }
        return false;
    }
    let mut i: usize = 0;
    while i < plen
        invariant
            0 <= i <= plen,
            plen == prefix@.len(),
            slen == s@.len(),
            plen <= slen,
            forall|j: int| 0 <= j < i ==> s@[j] == prefix@[j],
        decreases plen - i,
    {
        if s.get_char(i) != prefix.get_char(i) {
            proof {
                assert(s@.take(plen as int)[i as int] != prefix@[i as int]);
            }
            return false;
        }
        i += 1;
    }
    proof {
        assert(s@.take(plen as int) =~= prefix@);
    }
    true
}

/// Index of the last `'.'` of `s`, if any, matching `last_dot_index`.
pub fn find_last_dot(s: &str) -> (r: Option<usize>)
    ensures
        match r {
            Some(i) => last_dot_index(s@) == i,
            None => last_dot_index(s@) == -1,
        },
{
    let len = s.unicode_len();
    let mut i: usize = len;
    while i > 0
        invariant
            0 <= i <= len,
            len == s@.len(),
            forall|j: int| i <= j < len ==> s@[j] != '.',
        decreases i,
    {
        i -= 1;
        if s.get_char(i) == '.' {
            proof {
                lemma_last_dot_at(s@, i as int);
            }
            return Some(i);
        }
    }
    proof {
        lemma_no_dot(s@);
    }
    None
}

} // verus!
