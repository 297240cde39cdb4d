//! The inverse transform undoes the transform.
use vstd::prelude::*;
use vstd::relations::{sorted_by, total_ordering};
use vstd::seq_lib::lemma_sorted_unique;
use crate::symbol::{Symbol, lemma_key_order_u32, lemma_key_order_u8};
use crate::lex::{
    lemma_lex_antisymmetric, lemma_lex_cons, lemma_lex_first_lt, lemma_lex_reflexive, lemma_lex_take,
    lemma_lex_total_ordering, lex_le,
};
use crate::perm::{lemma_permute_multiset, permute};
use crate::bwt::{
    bwt_column, bwt_order, bwt_row, lemma_bwt_order_exists,
    bwt_inverse, is_bwt_order, keys_of, last_column, lemma_lf_next_exists, lemma_mod_wrap,
    lemma_stable_pos_order, lf_next, lf_walk, rotation, row, row_le,
    stable_pos, lemma_row_le_total, lemma_row_le_transitive,
};

verus! {

/// The rotation one step further is the rotation with its first symbol moved
/// to the end.
proof fn lemma_rotation_succ<T>(s: Seq<T>, q: int)
    requires
        s.len() > 0,
        q >= 0,
    ensures
        rotation(s, q + 1) == rotation(s, q).drop_first().push(rotation(s, q)[0]),
{
    let n = s.len() as int;
    vstd::arithmetic::div_mod::lemma_mod_add_multiples_vanish(q, n);
    assert(rotation(s, q + 1) =~= rotation(s, q).drop_first().push(rotation(s, q)[0])) by {
        assert(rotation(s, q + 1)[n - 1] == s[(q + 1 + (n - 1)) % n]);
        assert(q + 1 + (n - 1) == n + q);
    }
}

/// The rotation one step back from `q` starts with the symbol before `q` and
/// goes on with the rotation at `q` less its last symbol; one step forward from
/// it is the rotation at `q` again.
proof fn lemma_rotation_pred<T>(s: Seq<T>, q: int)
    requires
        s.len() > 0,
        0 <= q < s.len(),
    ensures
        0 <= (q + s.len() - 1) % (s.len() as int) < s.len(),
        rotation(s, (q + s.len() - 1) % (s.len() as int)) == seq![s[(q + s.len() - 1) % (s.len() as int)]]
            + rotation(s, q).take(s.len() - 1),
        rotation(s, (q + s.len() - 1) % (s.len() as int) + 1) == rotation(s, q),
{
    let n = s.len() as int;
    let r = (q + n - 1) % n;
    lemma_mod_wrap(q + n - 1, n);
    assert forall|j: int| 1 <= j < n implies #[trigger] rotation(s, r)[j] == rotation(s, q)[j - 1] by {
        lemma_mod_wrap(r + j, n);
        lemma_mod_wrap(q + j - 1, n);
    }
    assert(rotation(s, r)[0] == s[r]) by {
        lemma_mod_wrap(r, n);
    }
    assert(rotation(s, r) =~= seq![s[r]] + rotation(s, q).take(n - 1));
    assert(rotation(s, r + 1) =~= rotation(s, q)) by {
        assert forall|j: int| 0 <= j < n implies #[trigger] rotation(s, r + 1)[j] == rotation(
            s,
            q,
        )[j] by {
            lemma_mod_wrap(q + j, n);
            lemma_mod_wrap(r + 1 + j, n);
        }
    }
}

/// The last symbol of a rotation is the one before its start.
proof fn lemma_rotation_last<T>(s: Seq<T>, q: int)
    requires
        s.len() > 0,
        q >= 0,
    ensures
        rotation(s, q)[s.len() - 1] == s[(q + s.len() - 1) % (s.len() as int)],
{
}

/// Following `lf_next` from the row of a rotation leads to the row of the
/// next rotation.
proof fn lemma_lf_next_shifts<T: Symbol>(s: Seq<T>, p: Seq<int>, k: int)
    requires
        s.len() > 0,
        is_bwt_order(s, p),
        0 <= k < s.len(),
    ensures
        0 <= lf_next(keys_of(last_column(s, p)), k) < s.len(),
        rotation(s, p[lf_next(keys_of(last_column(s, p)), k)]) == rotation(s, p[k] + 1),
{
    let n = s.len() as int;
    let l = last_column(s, p);
    let keys = keys_of(l);
    let t = |k: int| lf_next(keys, k);
    assert forall|k: int| 0 <= k < n implies 0 <= #[trigger] t(k) < n && stable_pos(keys, t(k)) == k by {
        lemma_lf_next_exists(keys, k);
    }
    let sigma = Seq::new(n as nat, |k: int| (p[t(k)] + n - 1) % n);
    let rot = Seq::new(n as nat, |i: int| rotation(s, i));
    let rs = permute(rot, p);
    let bs = permute(rot, sigma);
    // sigma is a permutation
    assert forall|k: int| 0 <= k < n implies 0 <= #[trigger] sigma[k] < n by {
        lemma_mod_wrap(p[t(k)] + n - 1, n);
    }
    assert forall|a: int, b: int| 0 <= a < n && 0 <= b < n && #[trigger] sigma[a] == #[trigger] sigma[b] implies a == b by {
        lemma_mod_wrap(p[t(a)] + n - 1, n);
        lemma_mod_wrap(p[t(b)] + n - 1, n);
        assert(p[t(a)] == p[t(b)]);
        assert(t(a) == t(b));
    }
    lemma_permute_multiset(rot, p);
    lemma_permute_multiset(rot, sigma);
    // the first symbol of each shifted row is its symbol of the last column
    assert forall|k: int| 0 <= k < n implies #[trigger] bs[k] == seq![l[t(k)]] + rotation(s, p[t(k)]).take(n - 1) by {
        lemma_rotation_pred(s, p[t(k)]);
    }
    let leq = |a: Seq<T>, b: Seq<T>| lex_le(a, b);
    lemma_lex_total_ordering::<T>();
    assert(sorted_by(rs, leq)) by {
        assert forall|a: int, b: int| 0 <= a < b < rs.len() implies #[trigger] leq(rs[a], rs[b]) by {
            assert(row_le(row(s, p[a]), row(s, p[b])));
            if rs[a] == rs[b] {
                lemma_lex_reflexive(rs[a]);
            }
        }
    }
    assert(sorted_by(bs, leq)) by {
        assert forall|a: int, b: int| 0 <= a < b < bs.len() implies #[trigger] leq(bs[a], bs[b]) by {
            let ja = t(a);
            let jb = t(b);
            if keys[jb] < keys[ja] || (keys[ja] == keys[jb] && jb < ja) {
                lemma_stable_pos_order(keys, jb, ja);
            }
            if ja == jb {
                assert(stable_pos(keys, ja) == stable_pos(keys, jb));
            }
            assert(keys[ja] == l[ja].key());
            assert(keys[jb] == l[jb].key());
            if keys[ja] < keys[jb] {
                lemma_lex_first_lt(bs[a], bs[b]);
            } else {
                assert(keys[ja] == keys[jb] && ja < jb);
                T::lemma_key_injective(l[ja], l[jb]);
                assert(row_le(row(s, p[ja]), row(s, p[jb])));
                if rotation(s, p[ja]) == rotation(s, p[jb]) {
                    lemma_lex_reflexive(rotation(s, p[ja]));
                }
                lemma_lex_take(rotation(s, p[ja]), rotation(s, p[jb]), n - 1);
                lemma_lex_cons(l[ja], rotation(s, p[ja]).take(n - 1), rotation(s, p[jb]).take(n - 1));
            }
        }
    }
    lemma_sorted_unique(bs, rs, leq);
    assert(bs[k] == rs[k]);
    let r = sigma[k];
    lemma_rotation_pred(s, p[t(k)]);
    lemma_rotation_succ(s, r);
    lemma_rotation_succ(s, p[k]);
}

/// Walking `i` steps from the row of the block reaches the row of the
/// rotation at `i`.
proof fn lemma_lf_walk<T: Symbol>(s: Seq<T>, p: Seq<int>, o: int, i: nat)
    requires
        s.len() > 0,
        is_bwt_order(s, p),
        0 <= o < s.len(),
        p[o] == 0,
        i <= s.len(),
    ensures
        0 <= lf_walk(keys_of(last_column(s, p)), o, i) < s.len(),
        rotation(s, p[lf_walk(keys_of(last_column(s, p)), o, i)]) == rotation(s, i as int),
    decreases i,
{
    if i > 0 {
        lemma_lf_walk(s, p, o, (i - 1) as nat);
        let w = lf_walk(keys_of(last_column(s, p)), o, (i - 1) as nat);
        lemma_lf_next_shifts(s, p, w);
        lemma_rotation_succ(s, p[w]);
        lemma_rotation_succ(s, i - 1);
    }
}

/// Law: the inverse transform of the last column and of the row of the block,
/// for any sorted order of the rotation table, gives the block back.
pub proof fn lemma_bwt_round_trip<T: Symbol>(s: Seq<T>, p: Seq<int>, o: int)
    requires
        s.len() > 0,
        is_bwt_order(s, p),
        0 <= o < s.len(),
        p[o] == 0,
    ensures
        bwt_inverse(last_column(s, p), o) == s,
{
    let n = s.len() as int;
    let l = last_column(s, p);
    assert forall|i: int| 0 <= i < n implies #[trigger] bwt_inverse(l, o)[i] == s[i] by {
        lemma_lf_walk(s, p, o, (i + 1) as nat);
        let w = lf_walk(keys_of(l), o, (i + 1) as nat);
        lemma_rotation_last(s, p[w]);
        lemma_rotation_last(s, i + 1);
        lemma_mod_wrap(i + 1 + n - 1, n);
    }
    assert(bwt_inverse(l, o) =~= s);
}

/// The row order is a total order on rows.
pub proof fn lemma_row_le_total_ordering<T: Symbol>()
    ensures
        total_ordering(|x: (Seq<T>, bool), y: (Seq<T>, bool)| row_le(x, y)),
{
    let leq = |x: (Seq<T>, bool), y: (Seq<T>, bool)| row_le(x, y);
    assert forall|x: (Seq<T>, bool)| #[trigger] leq(x, x) by {}
    assert forall|x: (Seq<T>, bool), y: (Seq<T>, bool)| #[trigger] leq(x, y) && #[trigger] leq(y, x)
        implies x == y by {
        if x.0 != y.0 {
            lemma_lex_antisymmetric(x.0, y.0);
        }
    }
    assert forall|x: (Seq<T>, bool), y: (Seq<T>, bool), z: (Seq<T>, bool)| #[trigger]
        leq(x, y) && #[trigger] leq(y, z) implies leq(x, z) by {
        lemma_row_le_transitive(x, y, z);
    }
    assert forall|x: (Seq<T>, bool), y: (Seq<T>, bool)| #[trigger] leq(x, y) || #[trigger] leq(y, x) by {
        lemma_row_le_total(x, y);
    }
}

/// Law: the transform is determined by the block: any two sorted orders of the
/// rotation table give the same last column and put the block at the same row.
pub proof fn lemma_bwt_order_unique<T: Symbol>(s: Seq<T>, p1: Seq<int>, p2: Seq<int>)
    requires
        s.len() > 0,
        is_bwt_order(s, p1),
        is_bwt_order(s, p2),
    ensures
        last_column(s, p1) == last_column(s, p2),
        forall|o: int| 0 <= o < s.len() ==> (#[trigger] p1[o] == 0 <==> p2[o] == 0),
{
    let n = s.len() as int;
    let rows = Seq::new(n as nat, |i: int| row(s, i));
    let r1 = permute(rows, p1);
    let r2 = permute(rows, p2);
    let leq = |x: (Seq<T>, bool), y: (Seq<T>, bool)| row_le(x, y);
    lemma_row_le_total_ordering::<T>();
    lemma_permute_multiset(rows, p1);
    lemma_permute_multiset(rows, p2);
    assert(sorted_by(r1, leq)) by {
        assert forall|a: int, b: int| 0 <= a < b < r1.len() implies #[trigger] leq(r1[a], r1[b]) by {
            assert(row_le(row(s, p1[a]), row(s, p1[b])));
        }
    }
    assert(sorted_by(r2, leq)) by {
        assert forall|a: int, b: int| 0 <= a < b < r2.len() implies #[trigger] leq(r2[a], r2[b]) by {
            assert(row_le(row(s, p2[a]), row(s, p2[b])));
        }
    }
    lemma_sorted_unique(r1, r2, leq);
    assert forall|k: int| 0 <= k < n implies #[trigger] last_column(s, p1)[k] == last_column(s, p2)[k] by {
        assert(r1[k] == r2[k]);
        lemma_rotation_last(s, p1[k]);
        lemma_rotation_last(s, p2[k]);
    }
    assert(last_column(s, p1) =~= last_column(s, p2));
    assert forall|o: int| 0 <= o < n implies (#[trigger] p1[o] == 0 <==> p2[o] == 0) by {
        assert(r1[o] == r2[o]);
    }
}

/// Law: the last column holds the symbols of the block, each as often.
pub proof fn lemma_last_column_multiset<T: Symbol>(s: Seq<T>, p: Seq<int>)
    requires
        s.len() > 0,
        is_bwt_order(s, p),
    ensures
        last_column(s, p).to_multiset() == s.to_multiset(),
{
    let n = s.len() as int;
    let sigma = Seq::new(n as nat, |k: int| (p[k] + n - 1) % n);
    assert forall|k: int| 0 <= k < n implies 0 <= #[trigger] sigma[k] < n by {
        lemma_mod_wrap(p[k] + n - 1, n);
    }
    assert forall|a: int, b: int| 0 <= a < n && 0 <= b < n && #[trigger] sigma[a] == #[trigger] sigma[b] implies a == b by {
        lemma_mod_wrap(p[a] + n - 1, n);
        lemma_mod_wrap(p[b] + n - 1, n);
    }
    lemma_permute_multiset(s, sigma);
    assert(permute(s, sigma) =~= last_column(s, p));
}

/// The rotations of a rotation of `s` are rotations of `s`.
proof fn lemma_rotation_of_rotation<T>(s: Seq<T>, k: int, i: int)
    requires
        s.len() > 0,
        0 <= k < s.len(),
        0 <= i < s.len(),
    ensures
        rotation(rotation(s, k), i) == rotation(s, (k + i) % (s.len() as int)),
        0 <= (k + i) % (s.len() as int) < s.len(),
{
    let n = s.len() as int;
    lemma_mod_wrap(k + i, n);
    assert forall|j: int| 0 <= j < n implies #[trigger] rotation(rotation(s, k), i)[j] == rotation(
        s,
        (k + i) % n,
    )[j] by {
        lemma_mod_wrap(i + j, n);
        lemma_mod_wrap(k + (i + j) % n, n);
        lemma_mod_wrap((k + i) % n + j, n);
        lemma_mod_wrap(k + i, n);
    }
    assert(rotation(rotation(s, k), i) =~= rotation(s, (k + i) % n));
}

/// Law: rotating a block does not change the last column of its transform;
/// only the row at which the block stands moves.
pub proof fn lemma_bwt_column_rotation<T: Symbol>(s: Seq<T>, k: int)
    requires
        s.len() > 0,
        0 <= k < s.len(),
    ensures
        bwt_column(rotation(s, k)) == bwt_column(s),
{
    let n = s.len() as int;
    let s2 = rotation(s, k);
    lemma_bwt_order_exists(s);
    lemma_bwt_order_exists(s2);
    let p = bwt_order(s);
    let q = bwt_order(s2);
    let rot = Seq::new(n as nat, |i: int| rotation(s, i));
    let rot2 = Seq::new(n as nat, |i: int| rotation(s2, i));
    let sigma = Seq::new(n as nat, |i: int| (k + i) % n);
    assert forall|i: int| 0 <= i < n implies 0 <= #[trigger] sigma[i] < n by {
        lemma_mod_wrap(k + i, n);
    }
    assert forall|a: int, b: int| 0 <= a < n && 0 <= b < n && #[trigger] sigma[a] == #[trigger] sigma[b] implies a == b by {
        lemma_mod_wrap(k + a, n);
        lemma_mod_wrap(k + b, n);
    }
    assert(rot2 =~= permute(rot, sigma)) by {
        assert forall|i: int| 0 <= i < n implies #[trigger] rot2[i] == permute(rot, sigma)[i] by {
            lemma_rotation_of_rotation(s, k, i);
        }
    }
    lemma_permute_multiset(rot, sigma);
    lemma_permute_multiset(rot, p);
    lemma_permute_multiset(rot2, q);
    let r1 = permute(rot, p);
    let r2 = permute(rot2, q);
    let leq = |a: Seq<T>, b: Seq<T>| lex_le(a, b);
    lemma_lex_total_ordering::<T>();
    assert(sorted_by(r1, leq)) by {
        assert forall|a: int, b: int| 0 <= a < b < r1.len() implies #[trigger] leq(r1[a], r1[b]) by {
            assert(row_le(row(s, p[a]), row(s, p[b])));
            if r1[a] == r1[b] {
                lemma_lex_reflexive(r1[a]);
            }
        }
    }
    assert(sorted_by(r2, leq)) by {
        assert forall|a: int, b: int| 0 <= a < b < r2.len() implies #[trigger] leq(r2[a], r2[b]) by {
            assert(row_le(row(s2, q[a]), row(s2, q[b])));
            if r2[a] == r2[b] {
                lemma_lex_reflexive(r2[a]);
            }
        }
    }
    lemma_sorted_unique(r1, r2, leq);
    assert forall|j: int| 0 <= j < n implies #[trigger] bwt_column(s2)[j] == bwt_column(s)[j] by {
        assert(r1[j] == r2[j]);
        lemma_rotation_last(s, p[j]);
        lemma_rotation_last(s2, q[j]);
    }
    assert(bwt_column(s2) =~= bwt_column(s));
}

/// Law: the inverse transform of a block's last column and row gives the
/// block back.
pub proof fn lemma_bwt_column_round_trip<T: Symbol>(s: Seq<T>)
    requires
        s.len() > 0,
    ensures
        bwt_inverse(bwt_column(s), bwt_row(s)) == s,
        bwt_column(s).len() == s.len(),
        0 <= bwt_row(s) < s.len(),
{
    lemma_bwt_order_exists(s);
    lemma_bwt_round_trip(s, bwt_order(s), bwt_row(s));
}

/// The sorted rows start with keys in ascending order.
pub proof fn lemma_bwt_first_keys_ascending<T: Symbol>(s: Seq<T>, p: Seq<int>, a: int, b: int)
    requires
        s.len() > 0,
        is_bwt_order(s, p),
        0 <= a < b < s.len(),
    ensures
        s[p[a]].key() <= s[p[b]].key(),
{
    let n = s.len() as int;
    assert(row_le(row(s, p[a]), row(s, p[b])));
    lemma_mod_wrap(p[a], n);
    lemma_mod_wrap(p[b], n);
    assert(rotation(s, p[a])[0] == s[p[a]]);
    assert(rotation(s, p[b])[0] == s[p[b]]);
}

/// Law: the rows of a byte block are sorted by byte value: the bytes that
/// start them rise from the first row to the last.
pub proof fn lemma_bwt_rows_by_byte_value(s: Seq<u8>, p: Seq<int>, a: int, b: int)
    requires
        s.len() > 0,
        is_bwt_order(s, p),
        0 <= a < b < s.len(),
    ensures
        s[p[a]] <= s[p[b]],
{
    lemma_bwt_first_keys_ascending(s, p, a, b);
    lemma_key_order_u8(s[p[b]], s[p[a]]);
}

/// Law: the rows of a block of 32-bit symbols are sorted by value: the
/// symbols that start them rise from the first row to the last.
pub proof fn lemma_bwt_rows_by_u32_value(s: Seq<u32>, p: Seq<int>, a: int, b: int)
    requires
        s.len() > 0,
        is_bwt_order(s, p),
        0 <= a < b < s.len(),
    ensures
        s[p[a]] <= s[p[b]],
{
    lemma_bwt_first_keys_ascending(s, p, a, b);
    lemma_key_order_u32(s[p[b]], s[p[a]]);
}

} // verus!
