use vstd::prelude::*;

verus! {

/// `needle` occurs in `haystack` as a contiguous run starting at index `i`.
pub open spec fn is_match_at(haystack: Seq<u8>, needle: Seq<u8>, i: int) -> bool {
    &&& 0 <= i
    &&& i + needle.len() <= haystack.len()
    &&& forall|k: int| 0 <= k < needle.len() ==> haystack[i + k] == needle[k]
}

/// `needle` occurs somewhere in `haystack`.
pub open spec fn has_match(haystack: Seq<u8>, needle: Seq<u8>) -> bool {
    exists|i: int| is_match_at(haystack, needle, i)
}

/// `i` is the lowest index at which `needle` occurs in `haystack`.
pub open spec fn first_match(haystack: Seq<u8>, needle: Seq<u8>, i: int) -> bool {
    &&& is_match_at(haystack, needle, i)
    &&& forall|j: int| 0 <= j < i ==> !is_match_at(haystack, needle, j)
}

/// `needle` occurs in `haystack`, and so has a lowest occurrence.
pub open spec fn has_first(haystack: Seq<u8>, needle: Seq<u8>) -> bool {
    exists|i: int| first_match(haystack, needle, i)
}

/// The lowest index at which `needle` occurs in `haystack`; meaningful
/// only when `has_first` holds.
pub open spec fn first_idx(haystack: Seq<u8>, needle: Seq<u8>) -> int {
    choose|i: int| first_match(haystack, needle, i)
}

/// A needle has at most one lowest occurrence.
pub proof fn lemma_first_match_unique(haystack: Seq<u8>, needle: Seq<u8>, i: int, j: int)
    requires
        first_match(haystack, needle, i),
        first_match(haystack, needle, j),
    ensures
        i == j,
{
    if i < j {
        assert(is_match_at(haystack, needle, i));
        assert(false);
    }
    if j < i {
        assert(is_match_at(haystack, needle, j));
        assert(false);
    }
}

/// A witness for the lowest occurrence fixes the value of `first_idx`.
pub proof fn lemma_first_idx_is(haystack: Seq<u8>, needle: Seq<u8>, i: int)
    requires
        first_match(haystack, needle, i),
    ensures
        has_first(haystack, needle),
        first_idx(haystack, needle) == i,
{
    assert(first_match(haystack, needle, first_idx(haystack, needle)));
    lemma_first_match_unique(haystack, needle, first_idx(haystack, needle), i);
}

/// Whole-needle comparison against `haystack` at position `i`.
fn match_at(haystack: &[u8], needle: &[u8], i: usize) -> (r: bool)
    requires
        i + needle@.len() <= haystack@.len(),
    ensures
        r == is_match_at(haystack@, needle@, i as int),
{
    let n = needle.len();
    let hl = haystack.len();
    let mut k: usize = 0;
    while k < n
        invariant
            n == needle@.len(),
            hl == haystack@.len(),
            i + n <= hl,
            k <= n,
            forall|t: int| 0 <= t < k ==> haystack@[i + t] == needle@[t],
        decreases n - k,
    {
        if haystack[i + k] != needle[k] {
            return false;
        }
        k += 1;
    }
    true
}

/// Lowest starting index of the first exact occurrence of `needle` as a
/// contiguous subsequence of `haystack`, or `None` when it does not occur;
/// a needle longer than the haystack never occurs.
pub fn find_subsequence(haystack: &[u8], needle: &[u8]) -> (r: Option<usize>)
    requires
        needle@.len() >= 1,
    ensures
        match r {
            Some(i) => first_match(haystack@, needle@, i as int),
            None => !has_match(haystack@, needle@),
        },
{
    if needle.len() > haystack.len() {
        return None;
    }
    let last = haystack.len() - needle.len();
    let mut i: usize = 0;
    while i <= last
        invariant
            needle@.len() >= 1,
            needle@.len() <= haystack@.len(),
            haystack@.len() <= usize::MAX,
            last == haystack@.len() - needle@.len(),
            i <= last + 1,
            forall|j: int| 0 <= j < i ==> !is_match_at(haystack@, needle@, j),
        decreases last + 1 - i,
    {
        if match_at(haystack, needle, i) {
            return Some(i);
        }
        i += 1;
    }
    None
}

} // verus!
