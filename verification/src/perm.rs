//! Permutations of an index range, and what they keep.
use vstd::prelude::*;
use vstd::relations::injective_on;
use vstd::set_lib::{lemma_int_range, lemma_map_size, lemma_subset_equality, set_int_range};

verus! {

/// `p` lists each index below `n` exactly once.
pub open spec fn is_perm(p: Seq<int>, n: int) -> bool {
    &&& p.len() == n
    &&& forall|k: int| 0 <= k < n ==> 0 <= #[trigger] p[k] < n
    &&& forall|a: int, b: int|
        0 <= a < n && 0 <= b < n && #[trigger] p[a] == #[trigger] p[b] ==> a == b
}

/// The elements of `s` taken in the order that `p` lists their indices.
pub open spec fn permute<A>(s: Seq<A>, p: Seq<int>) -> Seq<A> {
    Seq::new(p.len(), |k: int| s[p[k]])
}

/// Taking the elements of a sequence in another order keeps its multiset.
pub proof fn lemma_permute_multiset<A>(s: Seq<A>, p: Seq<int>)
    requires
        is_perm(p, s.len() as int),
    ensures
        permute(s, p).to_multiset() == s.to_multiset(),
    decreases s.len(),
{
    broadcast use vstd::seq_lib::group_to_multiset_ensures;
    broadcast use vstd::multiset::group_multiset_axioms;

    let n = s.len() as int;
    if n == 0 {
        assert(permute(s, p) =~= s);
    } else {
        let j = p[n - 1];
        let s1 = s.remove(j);
        let p1 = Seq::new((n - 1) as nat, |k: int| if p[k] < j { p[k] } else { p[k] - 1 });
        assert forall|k: int| 0 <= k < n - 1 implies 0 <= #[trigger] p1[k] < n - 1 by {
            assert(p[k] != j);
        }
        assert forall|a: int, b: int|
            0 <= a < n - 1 && 0 <= b < n - 1 && #[trigger] p1[a] == #[trigger] p1[b] implies a
            == b by {
            assert(p[a] != j);
            assert(p[b] != j);
        }
        lemma_permute_multiset(s1, p1);
        let t = permute(s, p);
        assert(permute(s1, p1) =~= t.drop_last()) by {
            assert forall|k: int| 0 <= k < n - 1 implies permute(s1, p1)[k] == t.drop_last()[k] by {
                assert(p[k] != j);
            }
        }
        assert(t =~= t.drop_last().push(s[j]));
        assert(s.remove(j).to_multiset() == s.to_multiset().remove(s[j]));
        assert(s.contains(s[j]));
        assert(s.to_multiset().count(s[j]) > 0);
        assert(s.to_multiset().remove(s[j]).insert(s[j]) =~= s.to_multiset());
    }
}

/// A map from the indices below `n` into them that never joins two indices
/// reaches every index: this finds the one that reaches `v`.
pub proof fn lemma_injective_onto(f: spec_fn(int) -> int, n: int, v: int) -> (k: int)
    requires
        0 <= v < n,
        forall|k: int| 0 <= k < n ==> 0 <= #[trigger] f(k) < n,
        forall|a: int, b: int| 0 <= a < n && 0 <= b < n && #[trigger] f(a) == #[trigger] f(b) ==> a == b,
    ensures
        0 <= k < n,
        f(k) == v,
{
    let x = set_int_range(0, n);
    let y = x.map(f);
    lemma_int_range(0, n);
    assert(injective_on(f, x));
    lemma_map_size(x, y, f);
    assert(y.subset_of(x));
    lemma_subset_equality(y, x);
    assert(x.contains(v));
    assert(y.contains(v));
    choose|k: int| x.contains(k) && f(k) == v
}

} // verus!
