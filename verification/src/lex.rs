//! The lexicographic order on sequences of symbols, and its laws.
use vstd::prelude::*;
use vstd::relations::total_ordering;
use crate::symbol::Symbol;

verus! {

/// `a` comes no later than `b` in lexicographic order by symbol keys; a proper
/// prefix comes before the sequences it starts.
pub open spec fn lex_le<T: Symbol>(a: Seq<T>, b: Seq<T>) -> bool
    decreases a.len(),
{
    if a.len() == 0 {
        true
    } else if b.len() == 0 {
        false
    } else if a[0].key() != b[0].key() {
        a[0].key() < b[0].key()
    } else {
        lex_le(a.drop_first(), b.drop_first())
    }
}

/// `a` comes strictly before `b`.
pub open spec fn lex_lt<T: Symbol>(a: Seq<T>, b: Seq<T>) -> bool {
    lex_le(a, b) && a != b
}

/// Every sequence is ordered with itself.
pub proof fn lemma_lex_reflexive<T: Symbol>(a: Seq<T>)
    ensures
        lex_le(a, a),
    decreases a.len(),
{
    if a.len() > 0 {
        lemma_lex_reflexive(a.drop_first());
    }
}

/// Two sequences ordered both ways are equal.
pub proof fn lemma_lex_antisymmetric<T: Symbol>(a: Seq<T>, b: Seq<T>)
    requires
        lex_le(a, b),
        lex_le(b, a),
    ensures
        a == b,
    decreases a.len(),
{
    if a.len() == 0 {
        assert(b.len() == 0);
        assert(a =~= b);
    } else {
        assert(b.len() > 0);
        T::lemma_key_injective(a[0], b[0]);
        lemma_lex_antisymmetric(a.drop_first(), b.drop_first());
        assert(a =~= seq![a[0]] + a.drop_first());
        assert(b =~= seq![b[0]] + b.drop_first());
    }
}

/// The order is transitive.
pub proof fn lemma_lex_transitive<T: Symbol>(a: Seq<T>, b: Seq<T>, c: Seq<T>)
    requires
        lex_le(a, b),
        lex_le(b, c),
    ensures
        lex_le(a, c),
    decreases a.len(),
{
    if a.len() > 0 && b.len() > 0 && c.len() > 0 {
        if a[0].key() == b[0].key() && b[0].key() == c[0].key() {
            lemma_lex_transitive(a.drop_first(), b.drop_first(), c.drop_first());
        }
    }
}

/// Any two sequences are ordered one way or the other.
pub proof fn lemma_lex_total<T: Symbol>(a: Seq<T>, b: Seq<T>)
    ensures
        lex_le(a, b) || lex_le(b, a),
    decreases a.len(),
{
    if a.len() > 0 && b.len() > 0 && a[0].key() == b[0].key() {
        lemma_lex_total(a.drop_first(), b.drop_first());
    }
}

/// The lexicographic order is a total order on sequences of symbols.
pub proof fn lemma_lex_total_ordering<T: Symbol>()
    ensures
        total_ordering(|a: Seq<T>, b: Seq<T>| lex_le(a, b)),
{
    let leq = |a: Seq<T>, b: Seq<T>| lex_le(a, b);
    assert forall|a: Seq<T>| #[trigger] leq(a, a) by {
        lemma_lex_reflexive(a);
    }
    assert forall|a: Seq<T>, b: Seq<T>| #[trigger] leq(a, b) && #[trigger] leq(b, a) implies a
        == b by {
        lemma_lex_antisymmetric(a, b);
    }
    assert forall|a: Seq<T>, b: Seq<T>, c: Seq<T>| #[trigger]
        leq(a, b) && #[trigger] leq(b, c) implies leq(a, c) by {
        lemma_lex_transitive(a, b, c);
    }
    assert forall|a: Seq<T>, b: Seq<T>| #[trigger] leq(a, b) || #[trigger] leq(b, a) by {
        lemma_lex_total(a, b);
    }
}

/// Cutting two ordered sequences of one length to a common length keeps them
/// ordered.
pub proof fn lemma_lex_take<T: Symbol>(a: Seq<T>, b: Seq<T>, m: int)
    requires
        lex_le(a, b),
        a.len() == b.len(),
        0 <= m <= a.len(),
    ensures
        lex_le(a.take(m), b.take(m)),
    decreases m,
{
    if m > 0 {
        assert(a.take(m)[0] == a[0]);
        assert(b.take(m)[0] == b[0]);
        if a[0].key() == b[0].key() {
            lemma_lex_take(a.drop_first(), b.drop_first(), m - 1);
            assert(a.take(m).drop_first() =~= a.drop_first().take(m - 1));
            assert(b.take(m).drop_first() =~= b.drop_first().take(m - 1));
        }
    }
}

/// Putting one symbol in front of two sequences does not change their order.
pub proof fn lemma_lex_cons<T: Symbol>(c: T, a: Seq<T>, b: Seq<T>)
    ensures
        lex_le(seq![c] + a, seq![c] + b) == lex_le(a, b),
{
    assert((seq![c] + a).drop_first() =~= a);
    assert((seq![c] + b).drop_first() =~= b);
}

/// A sequence whose first key is smaller comes strictly first.
pub proof fn lemma_lex_first_lt<T: Symbol>(a: Seq<T>, b: Seq<T>)
    requires
        a.len() > 0,
        b.len() > 0,
        a[0].key() < b[0].key(),
    ensures
        lex_le(a, b),
        !lex_le(b, a),
        a != b,
{
}

/// Between two sequences of one length, the first position where the keys
/// differ decides the order.
pub proof fn lemma_lex_first_difference<T: Symbol>(a: Seq<T>, b: Seq<T>, d: int)
    requires
        a.len() == b.len(),
        0 <= d < a.len(),
        forall|m: int| 0 <= m < d ==> (#[trigger] a[m]).key() == b[m].key(),
        a[d].key() != b[d].key(),
    ensures
        lex_le(a, b) == (a[d].key() < b[d].key()),
        a != b,
    decreases d,
{
    if d > 0 {
        assert(a[0].key() == b[0].key());
        assert forall|m: int| 0 <= m < d - 1 implies (#[trigger] a.drop_first()[m]).key()
            == b.drop_first()[m].key() by {
            assert(a[m + 1].key() == b[m + 1].key());
        }
        lemma_lex_first_difference(a.drop_first(), b.drop_first(), d - 1);
    }
}

/// Two sequences of one length with the same keys everywhere are equal.
pub proof fn lemma_lex_same_keys<T: Symbol>(a: Seq<T>, b: Seq<T>)
    requires
        a.len() == b.len(),
        forall|m: int| 0 <= m < a.len() ==> (#[trigger] a[m]).key() == b[m].key(),
    ensures
        a == b,
{
    assert forall|m: int| 0 <= m < a.len() implies a[m] == b[m] by {
        T::lemma_key_injective(a[m], b[m]);
    }
    assert(a =~= b);
}

} // verus!
