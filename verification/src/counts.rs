//! Counting keys below or equal to a given key, and what keeps those counts.
use vstd::prelude::*;

verus! {

/// How many keys of `s` are smaller than `c`.
pub open spec fn count_less(s: Seq<u32>, c: u32) -> nat
    decreases s.len(),
{
    if s.len() == 0 {
        0
    } else {
        count_less(s.drop_last(), c) + if s.last() < c { 1nat } else { 0nat }
    }
}

/// How many keys of `s` equal `c`.
pub open spec fn count_equal(s: Seq<u32>, c: u32) -> nat
    decreases s.len(),
{
    if s.len() == 0 {
        0
    } else {
        count_equal(s.drop_last(), c) + if s.last() == c { 1nat } else { 0nat }
    }
}

/// The keys sorted in ascending order.
pub open spec fn is_ascending(s: Seq<u32>) -> bool {
    forall|a: int, b: int| 0 <= a < b < s.len() ==> s[a] <= s[b]
}

/// Growing a prefix by one key adds that key to the counts.
pub proof fn lemma_counts_take_step(s: Seq<u32>, j: int, c: u32)
    requires
        0 <= j < s.len(),
    ensures
        count_less(s.take(j + 1), c) == count_less(s.take(j), c) + if s[j] < c { 1nat } else { 0nat },
        count_equal(s.take(j + 1), c) == count_equal(s.take(j), c) + if s[j] == c { 1nat } else { 0nat },
{
    assert(s.take(j + 1).drop_last() =~= s.take(j));
}

/// Removing one key from a sequence takes that key out of the counts.
pub proof fn lemma_counts_remove(s: Seq<u32>, i: int, c: u32)
    requires
        0 <= i < s.len(),
    ensures
        count_less(s, c) == count_less(s.remove(i), c) + if s[i] < c { 1nat } else { 0nat },
        count_equal(s, c) == count_equal(s.remove(i), c) + if s[i] == c { 1nat } else { 0nat },
    decreases s.len(),
{
    if i == s.len() - 1 {
        assert(s.remove(i) =~= s.drop_last());
    } else {
        lemma_counts_remove(s.drop_last(), i, c);
        assert(s.remove(i).drop_last() =~= s.drop_last().remove(i));
        assert(s.remove(i).last() == s.last());
    }
}

/// The counts of a sequence depend on its multiset alone.
pub proof fn lemma_counts_multiset(s1: Seq<u32>, s2: Seq<u32>, c: u32)
    requires
        s1.to_multiset() == s2.to_multiset(),
    ensures
        count_less(s1, c) == count_less(s2, c),
        count_equal(s1, c) == count_equal(s2, c),
    decreases s1.len(),
{
    broadcast use vstd::seq_lib::group_to_multiset_ensures;
    broadcast use vstd::multiset::group_multiset_axioms;

    if s1.len() == 0 {
        assert(s2.to_multiset().len() == 0);
        assert(s2.len() == 0);
    } else {
        let x = s1.last();
        let s1p = s1.drop_last();
        assert(s1 =~= s1p.push(x));
        assert(s1.to_multiset() =~= s1p.to_multiset().insert(x));
        assert(s2.to_multiset().count(x) > 0);
        assert(s2.contains(x));
        let i = choose|i: int| 0 <= i < s2.len() && s2[i] == x;
        assert(s2.remove(i).to_multiset() == s2.to_multiset().remove(x));
        assert(s1p.to_multiset() =~= s2.remove(i).to_multiset());
        lemma_counts_multiset(s1p, s2.remove(i), c);
        lemma_counts_remove(s2, i, c);
    }
}

/// The counts of a prefix never exceed those of the whole; a key at `j`
/// itself is counted past the prefix that ends before it.
pub proof fn lemma_counts_prefix(s: Seq<u32>, j: int, c: u32)
    requires
        0 <= j <= s.len(),
    ensures
        count_less(s.take(j), c) <= count_less(s, c),
        count_equal(s.take(j), c) <= count_equal(s, c),
        j < s.len() && s[j] == c ==> count_equal(s.take(j), c) + 1 <= count_equal(s, c),
    decreases s.len() - j,
{
    if j == s.len() {
        assert(s.take(j) =~= s);
    } else {
        lemma_counts_prefix(s, j + 1, c);
        lemma_counts_take_step(s, j, c);
    }
}

/// Keys smaller than `c1`, or equal to it, are smaller than a larger `c2`.
pub proof fn lemma_count_less_grows(s: Seq<u32>, c1: u32, c2: u32)
    requires
        c1 < c2,
    ensures
        count_less(s, c1) + count_equal(s, c1) <= count_less(s, c2),
    decreases s.len(),
{
    if s.len() > 0 {
        lemma_count_less_grows(s.drop_last(), c1, c2);
    }
}

/// No more keys are smaller than or equal to `c` than there are keys.
pub proof fn lemma_counts_bounded(s: Seq<u32>, c: u32)
    ensures
        count_less(s, c) + count_equal(s, c) <= s.len(),
    decreases s.len(),
{
    if s.len() > 0 {
        lemma_counts_bounded(s.drop_last(), c);
    }
}

/// In ascending keys, the keys smaller than the key at `start` are exactly
/// those before the first index that holds it.
pub proof fn lemma_count_less_ascending(s: Seq<u32>, start: int, len: int)
    requires
        is_ascending(s),
        0 <= start < s.len(),
        start == 0 || s[start - 1] < s[start],
        0 <= len <= s.len(),
    ensures
        count_less(s.take(len), s[start]) == if len < start { len } else { start },
    decreases len,
{
    if len > 0 {
        lemma_count_less_ascending(s, start, len - 1);
        lemma_counts_take_step(s, len - 1, s[start]);
        if len - 1 < start {
            if len - 1 < start - 1 {
                assert(s[len - 1] <= s[start - 1]);
            }
        } else {
            assert(s[start] <= s[len - 1]);
        }
    }
}

/// When every key is `c`, none is below it and all equal it.
pub proof fn lemma_counts_constant(s: Seq<u32>, c: u32)
    requires
        forall|k: int| 0 <= k < s.len() ==> s[k] == c,
    ensures
        count_less(s, c) == 0,
        count_equal(s, c) == s.len(),
    decreases s.len(),
{
    if s.len() > 0 {
        lemma_counts_constant(s.drop_last(), c);
    }
}

} // verus!
