//! Small searches and comparisons on byte strings.

use vstd::prelude::*;

verus! {

/// Whether `a` and `b` hold the same bytes.
pub fn bytes_eq(a: &[u8], b: &[u8]) -> (same: bool)
    ensures
        same == (a@ == b@),
{
    if a.len() != b.len() {
        return false;
    }
    let mut i: usize = 0;
    while i < a.len()
        invariant
            i <= a.len(),
            a.len() == b.len(),
            forall|j: int| 0 <= j < i ==> a@[j] == b@[j],
        decreases a.len() - i,
    {
        if a[i] != b[i] {
            return false;
        }
        i += 1;
    }
    assert(a@ =~= b@);
    true
}

/// Whether `s` ends with `suffix`.
pub open spec fn has_suffix(s: Seq<u8>, suffix: Seq<u8>) -> bool {
    suffix.len() <= s.len() && s.skip(s.len() - suffix.len()) == suffix
}

/// Whether `s` begins with `prefix`.
pub open spec fn has_prefix(s: Seq<u8>, prefix: Seq<u8>) -> bool {
    prefix.len() <= s.len() && s.take(prefix.len() as int) == prefix
}

/// Whether `s` ends with `suffix`.
pub fn ends_with(s: &[u8], suffix: &[u8]) -> (r: bool)
    ensures
        r == has_suffix(s@, suffix@),
{
    if suffix.len() > s.len() {
        return false;
    }
    let from: usize = s.len() - suffix.len();
    bytes_eq(vstd::slice::slice_subrange(s, from, s.len()), suffix)
}

/// Whether `s` begins with `prefix`.
pub fn starts_with(s: &[u8], prefix: &[u8]) -> (r: bool)
    ensures
        r == has_prefix(s@, prefix@),
{
    if prefix.len() > s.len() {
        return false;
    }
    bytes_eq(vstd::slice::slice_subrange(s, 0, prefix.len()), prefix)
}

/// The offset of the first `b` in `s` at or after `from`, or the length of
/// `s` if there is none.
pub open spec fn first_at_or_after(s: Seq<u8>, from: int, b: u8) -> int
    decreases s.len() - from,
{
    if from < 0 || from >= s.len() {
        s.len() as int
    } else if s[from] == b {
        from
    } else {
        first_at_or_after(s, from + 1, b)
    }
}

/// The first `b` in `s` at or after `from` is where `first_at_or_after` says,
/// and no `b` stands between `from` and it.
pub proof fn lemma_first_at_or_after(s: Seq<u8>, from: int, b: u8)
    requires
        0 <= from <= s.len(),
    ensures
        from <= first_at_or_after(s, from, b) <= s.len(),
        first_at_or_after(s, from, b) < s.len() ==> s[first_at_or_after(s, from, b)] == b,
        forall|j: int| from <= j < first_at_or_after(s, from, b) ==> s[j] != b,
    decreases s.len() - from,
{
    if from < s.len() && s[from] != b {
        lemma_first_at_or_after(s, from + 1, b);
    }
}

/// Finds the first `b` in `s` at or after `from`.
pub fn find_byte(s: &[u8], from: usize, b: u8) -> (at: usize)
    requires
        from <= s.len(),
    ensures
        at == first_at_or_after(s@, from as int, b),
        from <= at <= s.len(),
{
    let mut i: usize = from;
    while i < s.len() && s[i] != b
        invariant
            from <= i <= s.len(),
            first_at_or_after(s@, from as int, b) == first_at_or_after(s@, i as int, b),
        decreases s.len() - i,
    {
        i += 1;
    }
    i
}

} // verus!
