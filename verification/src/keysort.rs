//! Sorting keys with the counting_sort crate.
use vstd::prelude::*;
use counting_sort::CountingSort;
use counting_sort::CountingSortError;
use crate::counts::is_ascending;

verus! {

#[verifier::external_type_specification]
#[verifier::external_body]
pub struct ExCountingSortError(CountingSortError);

/// There are two different keys in `s`.
pub open spec fn has_two_keys(s: Seq<u32>) -> bool {
    exists|a: int, b: int| 0 <= a < s.len() && 0 <= b < s.len() && s[a] != s[b]
}

/// The difference of any two keys, plus two, fits in a `usize`.
pub open spec fn span_fits(s: Seq<u32>) -> bool {
    forall|a: int, b: int| 0 <= a < s.len() && 0 <= b < s.len() ==> s[a] - s[b] + 2 <= usize::MAX
}

/// Sorts `keys` with `CountingSort::cnt_sort` of the counting_sort crate.
///
/// The crate's source finds the smallest and largest key, fails with an error
/// when there is no key or when they are equal, and otherwise counts each key
/// in a vector of `largest - smallest + 2` counters and writes out every key
/// in ascending order, so that the result holds the keys of the argument in
/// ascending order. What is left unsaid: that vector is allocated in full,
/// and for a wide span of keys the allocation can fail, which aborts the
/// process.
#[verifier::external_body]
pub(crate) fn cnt_sort_keys(keys: &Vec<u32>) -> (r: Result<Vec<u32>, CountingSortError>)
    requires
        span_fits(keys@),
    ensures
        r is Ok <==> has_two_keys(keys@),
        r matches Ok(v) ==> v@.to_multiset() == keys@.to_multiset() && is_ascending(v@),
{
    keys.iter().cnt_sort()
}

} // verus!
