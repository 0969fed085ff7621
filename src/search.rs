//! Literal substring search over bytes.
use vstd::prelude::*;

verus! {

/// `k` occurs in `s` starting at index `i`.
pub open spec fn occurs_at(s: Seq<u8>, k: Seq<u8>, i: int) -> bool {
    0 <= i && i + k.len() <= s.len() && s.subrange(i, i + k.len()) == k
}

/// `k` occurs somewhere in `s` (the empty sequence occurs in every `s`).
pub open spec fn contains(s: Seq<u8>, k: Seq<u8>) -> bool {
    exists|i: int| occurs_at(s, k, i)
}

/// `s` begins with `k`.
pub open spec fn starts_with(s: Seq<u8>, k: Seq<u8>) -> bool {
    occurs_at(s, k, 0)
}

/// Relies on memchr::memmem::find: the index of the leftmost occurrence of
/// `needle` in `haystack`, or `None` when there is none. An empty needle is
/// found at index 0.
pub assume_specification[ memchr::memmem::find ](haystack: &[u8], needle: &[u8]) -> (r: Option<usize>)
    ensures
        match r {
            Some(i) => occurs_at(haystack@, needle@, i as int) && forall|j: int|
                0 <= j < i ==> !occurs_at(haystack@, needle@, j),
            None => !contains(haystack@, needle@),
        },
;

/// An occurrence in a suffix is an occurrence in the whole, shifted.
pub proof fn lemma_occurs_in_suffix(s: Seq<u8>, k: Seq<u8>, p: int, j: int)
    requires
        0 <= p <= s.len(),
    ensures
        occurs_at(s.subrange(p, s.len() as int), k, j) <==> (0 <= j && occurs_at(s, k, p + j)),
{
    let t = s.subrange(p, s.len() as int);
    if 0 <= j && j + k.len() <= t.len() {
        assert(t.subrange(j, j + k.len()) =~= s.subrange(p + j, p + j + k.len()));
    }
}

/// Appends `src[lo..hi]` to `out`.
pub fn push_range(out: &mut Vec<u8>, src: &[u8], lo: usize, hi: usize)
    requires
        lo <= hi <= src@.len(),
    ensures
        final(out)@ == old(out)@ + src@.subrange(lo as int, hi as int),
{
    let mut i: usize = lo;
    while i < hi
        invariant
            lo <= i <= hi <= src@.len(),
            out@ == old(out)@ + src@.subrange(lo as int, i as int),
        decreases hi - i,
    {
        out.push(src[i]);
        i = i + 1;
        assert(src@.subrange(lo as int, i as int) =~= src@.subrange(lo as int, i - 1) + seq![src@[i - 1]]);
    }
}

} // verus!
