//! The Burrows-Wheeler transform of a block of symbols, and its inverse.
use vstd::prelude::*;
use crate::lex::{
    lemma_lex_antisymmetric, lemma_lex_first_difference, lemma_lex_same_keys, lemma_lex_total,
    lemma_lex_transitive, lex_lt,
};
use crate::perm::{is_perm, lemma_injective_onto};
use crate::counts::{
    count_equal, count_less, is_ascending, lemma_count_less_ascending,
    lemma_count_less_grows, lemma_counts_bounded, lemma_counts_constant, lemma_counts_multiset,
    lemma_counts_prefix, lemma_counts_take_step,
};
use crate::keysort::{cnt_sort_keys, has_two_keys, span_fits};
use crate::symbol::Symbol;
use crate::bwt_laws::lemma_bwt_order_unique;

verus! {

/// The rotation of `s` that starts at index `i`.
pub open spec fn rotation<T>(s: Seq<T>, i: int) -> Seq<T> {
    Seq::new(s.len(), |j: int| s[(i + j) % (s.len() as int)])
}

/// A row of the rotation table: the rotation at `i`, flagged when it is the
/// block itself.
pub open spec fn row<T>(s: Seq<T>, i: int) -> (Seq<T>, bool) {
    (rotation(s, i), i == 0)
}

/// The order of the rows of the rotation table: by rotation, and among equal
/// rotations the flagged row last.
pub open spec fn row_le<T: Symbol>(x: (Seq<T>, bool), y: (Seq<T>, bool)) -> bool {
    lex_lt(x.0, y.0) || (x.0 == y.0 && (!x.1 || y.1))
}

/// `p` lists the rows of the rotation table of `s` in sorted order.
pub open spec fn is_bwt_order<T: Symbol>(s: Seq<T>, p: Seq<int>) -> bool {
    &&& is_perm(p, s.len() as int)
    &&& forall|a: int, b: int|
        0 <= a < b < s.len() ==> row_le(#[trigger] row(s, p[a]), #[trigger] row(s, p[b]))
}

/// A sorted order of the rotation table of `s`.
pub open spec fn bwt_order<T: Symbol>(s: Seq<T>) -> Seq<int> {
    choose|p: Seq<int>| is_bwt_order(s, p)
}

/// The last column of the transform of `s`.
pub open spec fn bwt_column<T: Symbol>(s: Seq<T>) -> Seq<T> {
    last_column(s, bwt_order(s))
}

/// The row at which `s` itself stands in its sorted rotation table.
pub open spec fn bwt_row<T: Symbol>(s: Seq<T>) -> int {
    choose|o: int| 0 <= o < s.len() && bwt_order(s)[o] == 0
}

/// `q` lists the indices below `m` once each, sorted by their rows.
pub open spec fn is_sorted_prefix<T: Symbol>(s: Seq<T>, q: Seq<int>, m: int) -> bool {
    &&& q.len() == m
    &&& forall|k: int| 0 <= k < m ==> 0 <= #[trigger] q[k] < m
    &&& forall|a: int, b: int| 0 <= a < m && 0 <= b < m && #[trigger] q[a] == #[trigger] q[b] ==> a == b
    &&& forall|a: int, b: int| 0 <= a < b < m ==> row_le(#[trigger] row(s, q[a]), #[trigger] row(s, q[b]))
}

/// The first place in `q`, from `k` on, whose row does not come before the
/// row of `x`.
proof fn lemma_insert_pos<T: Symbol>(s: Seq<T>, q: Seq<int>, x: int, k: int) -> (pos: int)
    requires
        0 <= k <= q.len(),
        forall|j: int| 0 <= j < k ==> row_le(#[trigger] row(s, q[j]), row(s, x)),
    ensures
        k <= pos <= q.len(),
        forall|j: int| 0 <= j < pos ==> row_le(#[trigger] row(s, q[j]), row(s, x)),
        pos < q.len() ==> !row_le(row(s, q[pos]), row(s, x)),
    decreases q.len() - k,
{
    if k == q.len() || !row_le(row(s, q[k]), row(s, x)) {
        k
    } else {
        lemma_insert_pos(s, q, x, k + 1)
    }
}

/// Sorting the rows of the indices below `m` is possible.
proof fn lemma_sorted_prefix_exists<T: Symbol>(s: Seq<T>, m: int) -> (q: Seq<int>)
    requires
        0 <= m <= s.len(),
    ensures
        is_sorted_prefix(s, q, m),
    decreases m,
{
    if m == 0 {
        Seq::empty()
    } else {
        let x = m - 1;
        let q0 = lemma_sorted_prefix_exists(s, x);
        let pos = lemma_insert_pos(s, q0, x, 0);
        let q = q0.insert(pos, x);
        q0.insert_ensures(pos, x);
        if pos < x {
            lemma_row_le_total(row(s, q0[pos]), row(s, x));
        }
        assert forall|a: int, b: int| 0 <= a < b < m implies row_le(#[trigger] row(s, q[a]), #[trigger] row(s, q[b])) by {
            if b < pos {
            } else if b == pos {
            } else if a < pos {
                assert(q[b] == q0[b - 1]);
                if b - 1 > pos {
                    lemma_row_le_transitive(row(s, x), row(s, q0[pos]), row(s, q0[b - 1]));
                }
                lemma_row_le_transitive(row(s, q[a]), row(s, x), row(s, q[b]));
            } else if a == pos {
                assert(q[b] == q0[b - 1]);
                if b - 1 > pos {
                    lemma_row_le_transitive(row(s, x), row(s, q0[pos]), row(s, q0[b - 1]));
                }
            } else {
                assert(q[a] == q0[a - 1]);
                assert(q[b] == q0[b - 1]);
            }
        }
        assert forall|a: int, b: int| 0 <= a < m && 0 <= b < m && #[trigger] q[a] == #[trigger] q[b] implies a == b by {
            if a != pos {
                let oa = if a < pos { a } else { a - 1 };
                assert(q[a] == q0[oa]);
            }
            if b != pos {
                let ob = if b < pos { b } else { b - 1 };
                assert(q[b] == q0[ob]);
            }
        }
        assert forall|k: int| 0 <= k < m implies 0 <= #[trigger] q[k] < m by {
            if k > pos {
                assert(q[k] == q0[k - 1]);
            }
        }
        q
    }
}

/// Every block has a sorted order of its rotation table, and its row.
pub proof fn lemma_bwt_order_exists<T: Symbol>(s: Seq<T>)
    requires
        s.len() > 0,
    ensures
        is_bwt_order(s, bwt_order(s)),
        0 <= bwt_row(s) < s.len(),
        bwt_order(s)[bwt_row(s)] == 0,
{
    let q = lemma_sorted_prefix_exists(s, s.len() as int);
    assert(is_bwt_order(s, q));
    let p = bwt_order(s);
    let o = lemma_injective_onto(|k: int| p[k], s.len() as int, 0);
}

/// The last symbols of the rows of the rotation table, in the order `p`.
pub open spec fn last_column<T>(s: Seq<T>, p: Seq<int>) -> Seq<T> {
    Seq::new(p.len(), |k: int| s[(p[k] + s.len() - 1) % (s.len() as int)])
}

/// An index below twice `n` wraps around `n` at most once.
pub proof fn lemma_mod_wrap(x: int, n: int)
    requires
        0 <= x < 2 * n,
        n > 0,
    ensures
        x % n == if x < n { x } else { x - n },
{
    if x < n {
        vstd::arithmetic::div_mod::lemma_small_mod(x as nat, n as nat);
    } else {
        vstd::arithmetic::div_mod::lemma_small_mod((x - n) as nat, n as nat);
        vstd::arithmetic::div_mod::lemma_mod_add_multiples_vanish(x - n, n);
    }
}

/// The row order is total.
pub proof fn lemma_row_le_total<T: Symbol>(x: (Seq<T>, bool), y: (Seq<T>, bool))
    ensures
        row_le(x, y) || row_le(y, x),
{
    if x.0 != y.0 {
        lemma_lex_total(x.0, y.0);
    }
}

/// The row order is transitive.
pub proof fn lemma_row_le_transitive<T: Symbol>(
    x: (Seq<T>, bool),
    y: (Seq<T>, bool),
    z: (Seq<T>, bool),
)
    requires
        row_le(x, y),
        row_le(y, z),
    ensures
        row_le(x, z),
{
    if lex_lt(x.0, y.0) && lex_lt(y.0, z.0) {
        lemma_lex_transitive(x.0, y.0, z.0);
        if x.0 == z.0 {
            lemma_lex_antisymmetric(x.0, y.0);
        }
    }
}

/// Builds the table of all rotations of `input`; the row of rotation `i` is
/// flagged when `i` is 0.
pub fn create_all_rotations<T>(input: &[T]) -> (table: Vec<(Vec<&T>, bool)>)
    ensures
        table@.len() == input@.len(),
        forall|i: int|
            0 <= i < input@.len() ==> (#[trigger] table@[i]).0@.unref() == rotation(input@, i),
        forall|i: int| 0 <= i < input@.len() ==> (#[trigger] table@[i]).1 == (i == 0),
{
    let lenth = input.len();
    let mut table: Vec<(Vec<&T>, bool)> = Vec::new();
    let mut i: usize = 0;
    while i < lenth
        invariant
            i <= lenth,
            lenth == input@.len(),
            table@.len() == i,
            forall|r: int| 0 <= r < i ==> (#[trigger] table@[r]).0@.unref() == rotation(input@, r),
            forall|r: int| 0 <= r < i ==> (#[trigger] table@[r]).1 == (r == 0),
        decreases lenth - i,
    {
        let mut c: Vec<&T> = Vec::new();
        let mut j: usize = 0;
        while j < lenth
            invariant
                i < lenth,
                j <= lenth,
                lenth == input@.len(),
                c@.len() == j,
                forall|m: int| 0 <= m < j ==> *(#[trigger] c@[m]) == input@[(i + m) % (lenth as int)],
            decreases lenth - j,
        {
            let k = if j < lenth - i { i + j } else { j - (lenth - i) };
            proof {
                lemma_mod_wrap(i + j, lenth as int);
            }
            c.push(&input[k]);
            j += 1;
        }
        assert(c@.unref() =~= rotation(input@, i as int));
        table.push((c, i == 0));
        i += 1;
    }
    table
}

/// The rows of the table as sequences of symbols.
pub open spec fn table_row<T>(entry: (Vec<&T>, bool)) -> (Seq<T>, bool) {
    (entry.0@.unref(), entry.1)
}

/// Compares two rows of one length in the row order.
fn rows_le<T: Symbol>(a: &(Vec<&T>, bool), b: &(Vec<&T>, bool)) -> (r: bool)
    requires
        a.0@.len() == b.0@.len(),
    ensures
        r == row_le(table_row(*a), table_row(*b)),
{
    let n = a.0.len();
    let ghost x = a.0@.unref();
    let ghost y = b.0@.unref();
    let mut d: usize = 0;
    while d < n
        invariant
            d <= n,
            n == a.0@.len(),
            n == b.0@.len(),
            x == a.0@.unref(),
            y == b.0@.unref(),
            forall|m: int| 0 <= m < d ==> (#[trigger] x[m]).key() == y[m].key(),
        decreases n - d,
    {
        let ka = a.0[d].to_key();
        let kb = b.0[d].to_key();
        if ka != kb {
            proof {
                lemma_lex_first_difference(x, y, d as int);
            }
            return ka < kb;
        }
        d += 1;
    }
    proof {
        lemma_lex_same_keys(x, y);
    }
    !a.1 || b.1
}

/// Sorts the indices of the rows of `table`, the rotation table of `s`.
fn sort_rows<T: Symbol>(table: &Vec<(Vec<&T>, bool)>, Ghost(s): Ghost<Seq<T>>) -> (order: Vec<usize>)
    requires
        table@.len() == s.len(),
        forall|i: int| 0 <= i < s.len() ==> table_row(#[trigger] table@[i]) == row(s, i),
    ensures
        is_bwt_order(s, order@.map_values(|x: usize| x as int)),
{
    let n = table.len();
    assert forall|r: int| 0 <= r < n implies (#[trigger] table@[r]).0@.len() == n by {
        assert(table_row(table@[r]) == row(s, r));
        assert(table@[r].0@.unref().len() == n);
    }
    let mut order: Vec<usize> = Vec::new();
    let mut i: usize = 0;
    while i < n
        invariant
            i <= n,
            n == s.len(),
            table@.len() == s.len(),
            forall|r: int| 0 <= r < s.len() ==> table_row(#[trigger] table@[r]) == row(s, r),
            forall|r: int| 0 <= r < n ==> (#[trigger] table@[r]).0@.len() == n,
            order@.len() == i,
            forall|k: int| 0 <= k < i ==> (#[trigger] order@[k]) < i,
            forall|a: int, b: int|
                0 <= a < i && 0 <= b < i && #[trigger] order@[a] == #[trigger] order@[b] ==> a == b,
            forall|a: int, b: int|
                0 <= a < b < i ==> row_le(
                    #[trigger] row(s, order@[a] as int),
                    #[trigger] row(s, order@[b] as int),
                ),
        decreases n - i,
    {
        let mut pos: usize = 0;
        let mut hi: usize = i;
        while pos < hi
            invariant
                pos <= hi <= i,
                i < n,
                n == s.len(),
                table@.len() == s.len(),
                forall|r: int| 0 <= r < s.len() ==> table_row(#[trigger] table@[r]) == row(s, r),
                forall|r: int| 0 <= r < n ==> (#[trigger] table@[r]).0@.len() == n,
                order@.len() == i,
                forall|k: int| 0 <= k < i ==> (#[trigger] order@[k]) < i,
                forall|a: int, b: int|
                    0 <= a < b < i ==> row_le(
                        #[trigger] row(s, order@[a] as int),
                        #[trigger] row(s, order@[b] as int),
                    ),
                forall|k: int| 0 <= k < pos ==> row_le(#[trigger] row(s, order@[k] as int), row(s, i as int)),
                forall|k: int| hi <= k < i ==> !row_le(#[trigger] row(s, order@[k] as int), row(s, i as int)),
            decreases hi - pos,
        {
            let mid = pos + (hi - pos) / 2;
            if rows_le(&table[order[mid]], &table[i]) {
                proof {
                    assert forall|k: int| 0 <= k <= mid implies row_le(#[trigger] row(s, order@[k] as int), row(s, i as int)) by {
                        if k < mid {
                            lemma_row_le_transitive(row(s, order@[k] as int), row(s, order@[mid as int] as int), row(s, i as int));
                        }
                    }
                }
                pos = mid + 1;
            } else {
                proof {
                    assert forall|k: int| mid <= k < i implies !row_le(#[trigger] row(s, order@[k] as int), row(s, i as int)) by {
                        if k > mid && row_le(row(s, order@[k] as int), row(s, i as int)) {
                            lemma_row_le_transitive(row(s, order@[mid as int] as int), row(s, order@[k] as int), row(s, i as int));
                        }
                    }
                }
                hi = mid;
            }
        }
        let ghost old_order = order@;
        proof {
            if pos < i {
                assert(!row_le(row(s, old_order[pos as int] as int), row(s, i as int)));
                lemma_row_le_total(row(s, old_order[pos as int] as int), row(s, i as int));
            }
            old_order.insert_ensures(pos as int, i);
        }
        order.insert(pos, i);
        proof {
            let new_order = order@;
            assert forall|a: int, b: int| 0 <= a < b < i + 1 implies row_le(
                #[trigger] row(s, new_order[a] as int),
                #[trigger] row(s, new_order[b] as int),
            ) by {
                if b < pos {
                } else if b == pos {
                } else if a < pos {
                    // a before, b after the new entry
                    assert(row_le(row(s, new_order[a] as int), row(s, i as int)));
                    assert(new_order[b] == old_order[b - 1]);
                    assert(row_le(row(s, i as int), row(s, old_order[pos as int] as int)));
                    if b - 1 > pos {
                        assert(row_le(row(s, old_order[pos as int] as int), row(s, old_order[b - 1] as int)));
                        lemma_row_le_transitive(row(s, i as int), row(s, old_order[pos as int] as int), row(s, old_order[b - 1] as int));
                    }
                    lemma_row_le_transitive(row(s, new_order[a] as int), row(s, i as int), row(s, new_order[b] as int));
                } else if a == pos {
                    assert(new_order[b] == old_order[b - 1]);
                    assert(row_le(row(s, i as int), row(s, old_order[pos as int] as int)));
                    if b - 1 > pos {
                        assert(row_le(row(s, old_order[pos as int] as int), row(s, old_order[b - 1] as int)));
                        lemma_row_le_transitive(row(s, i as int), row(s, old_order[pos as int] as int), row(s, old_order[b - 1] as int));
                    }
                } else {
                    assert(new_order[a] == old_order[a - 1]);
                    assert(new_order[b] == old_order[b - 1]);
                }
            }
            assert forall|a: int, b: int|
                0 <= a < i + 1 && 0 <= b < i + 1 && #[trigger] new_order[a] == #[trigger] new_order[b] implies a == b by {
                if a != pos && b != pos {
                    let oa = if a < pos { a } else { a - 1 };
                    let ob = if b < pos { b } else { b - 1 };
                    assert(new_order[a] == old_order[oa]);
                    assert(new_order[b] == old_order[ob]);
                } else if a != pos {
                    let oa = if a < pos { a } else { a - 1 };
                    assert(new_order[a] == old_order[oa]);
                } else if b != pos {
                    let ob = if b < pos { b } else { b - 1 };
                    assert(new_order[b] == old_order[ob]);
                }
            }
            assert forall|k: int| 0 <= k < i + 1 implies (#[trigger] new_order[k]) < i + 1 by {
                if k < pos {
                } else if k > pos {
                    assert(new_order[k] == old_order[k - 1]);
                }
            }
        }
        i += 1;
    }
    let ghost p = order@.map_values(|x: usize| x as int);
    assert forall|a: int, b: int| 0 <= a < b < s.len() implies row_le(
        #[trigger] row(s, p[a]),
        #[trigger] row(s, p[b]),
    ) by {
        assert(row_le(row(s, order@[a] as int), row(s, order@[b] as int)));
    }
    assert forall|a: int, b: int|
        0 <= a < n && 0 <= b < n && #[trigger] p[a] == #[trigger] p[b] implies a == b by {
        assert(order@[a] == order@[b]);
    }
    order
}

/// The Burrows-Wheeler transform of a non-empty block: the last symbols of the
/// sorted rotation table, and the row at which the block itself stands.
pub fn bwt_encode<T: Symbol>(input: &[T]) -> (res: (Vec<T>, usize))
    requires
        input@.len() > 0,
    ensures
        res.1 < input@.len(),
        exists|p: Seq<int>|
            #![trigger is_bwt_order(input@, p)]
            is_bwt_order(input@, p) && res.0@ == last_column(input@, p) && p[res.1 as int] == 0,
        res.0@ == bwt_column(input@),
        res.1 == bwt_row(input@),
{
    let lenth = input.len();
    let table = create_all_rotations(input);
    assert forall|r: int| 0 <= r < lenth implies table_row(#[trigger] table@[r]) == row(input@, r) by {
        assert(table@[r].0@.unref() == rotation(input@, r));
    }
    let order = sort_rows(&table, Ghost(input@));
    let ghost p = order@.map_values(|x: usize| x as int);
    let ghost first = lemma_injective_onto(|k: int| p[k], lenth as int, 0);
    let mut o: usize = 0;
    while order[o] != 0
        invariant
            o <= first,
            order@.len() == lenth,
            p == order@.map_values(|x: usize| x as int),
            0 <= first < lenth,
            p[first] == 0,
        decreases first - o,
    {
        o += 1;
    }
    let mut result: Vec<T> = Vec::new();
    let mut k: usize = 0;
    while k < lenth
        invariant
            k <= lenth,
            lenth == input@.len(),
            table@.len() == lenth,
            order@.len() == lenth,
            p == order@.map_values(|x: usize| x as int),
            is_perm(p, lenth as int),
            forall|r: int| 0 <= r < lenth ==> table_row(#[trigger] table@[r]) == row(input@, r),
            result@ == last_column(input@, p).take(k as int),
        decreases lenth - k,
    {
        let r = order[k];
        assert(p[k as int] == r);
        assert(table_row(table@[r as int]) == row(input@, r as int));
        assert(table@[r as int].0@.unref() == rotation(input@, r as int));
        assert(table@[r as int].0@.unref().len() == table@[r as int].0@.len());
        assert(table@[r as int].0@.len() == lenth);
        assert(table@[r as int].0@.unref()[lenth - 1] == *table@[r as int].0@[lenth - 1]);
        let sym: T = *table[r].0[lenth - 1];
        proof {
            assert(sym == rotation(input@, r as int)[lenth - 1]);
            assert(result@.push(sym) =~= last_column(input@, p).take(k + 1));
        }
        result.push(sym);
        k += 1;
    }
    assert(result@ =~= last_column(input@, p));
    proof {
        lemma_bwt_order_exists(input@);
        let q = bwt_order(input@);
        lemma_bwt_order_unique(input@, p, q);
        let r = bwt_row(input@);
        assert(p[r] == 0);
        assert(p[o as int] == 0);
    }
    (result, o)
}

/// The keys of a block.
pub open spec fn keys_of<T: Symbol>(s: Seq<T>) -> Seq<u32> {
    s.map_values(|x: T| x.key())
}

/// Where index `j` of `keys` lands when the keys are sorted stably: after
/// every smaller key and after every equal key before it.
pub open spec fn stable_pos(keys: Seq<u32>, j: int) -> int {
    (count_less(keys, keys[j]) + count_equal(keys.take(j), keys[j])) as int
}

/// The index whose key lands at position `k` of the stable sort.
pub open spec fn lf_next(keys: Seq<u32>, k: int) -> int {
    choose|j: int| 0 <= j < keys.len() && stable_pos(keys, j) == k
}

/// The position reached from `start` after `i` steps of `lf_next`.
pub open spec fn lf_walk(keys: Seq<u32>, start: int, i: nat) -> int
    decreases i,
{
    if i == 0 {
        start
    } else {
        lf_next(keys, lf_walk(keys, start, (i - 1) as nat))
    }
}

/// The inverse transform of the last column `code` whose block stands at row
/// `no`.
pub open spec fn bwt_inverse<T: Symbol>(code: Seq<T>, no: int) -> Seq<T> {
    Seq::new(code.len(), |i: int| code[lf_walk(keys_of(code), no, (i + 1) as nat)])
}

/// Stable positions lie below the number of keys.
pub proof fn lemma_stable_pos_range(keys: Seq<u32>, j: int)
    requires
        0 <= j < keys.len(),
    ensures
        0 <= stable_pos(keys, j) < keys.len(),
{
    lemma_counts_prefix(keys, j, keys[j]);
    lemma_counts_bounded(keys, keys[j]);
}

/// Stable positions follow the keys, and the indices among equal keys.
pub proof fn lemma_stable_pos_order(keys: Seq<u32>, j1: int, j2: int)
    requires
        0 <= j1 < keys.len(),
        0 <= j2 < keys.len(),
        keys[j1] < keys[j2] || (keys[j1] == keys[j2] && j1 < j2),
    ensures
        stable_pos(keys, j1) < stable_pos(keys, j2),
{
    let c1 = keys[j1];
    let c2 = keys[j2];
    if c1 < c2 {
        lemma_counts_prefix(keys, j1, c1);
        lemma_count_less_grows(keys, c1, c2);
    } else {
        let pre = keys.take(j2);
        lemma_counts_prefix(pre, j1, c1);
        assert(pre.take(j1) =~= keys.take(j1));
    }
}

/// Distinct indices land at distinct stable positions.
pub proof fn lemma_stable_pos_injective(keys: Seq<u32>, j1: int, j2: int)
    requires
        0 <= j1 < keys.len(),
        0 <= j2 < keys.len(),
        stable_pos(keys, j1) == stable_pos(keys, j2),
    ensures
        j1 == j2,
{
    if keys[j1] < keys[j2] || (keys[j1] == keys[j2] && j1 < j2) {
        lemma_stable_pos_order(keys, j1, j2);
    } else if keys[j2] < keys[j1] || (keys[j1] == keys[j2] && j2 < j1) {
        lemma_stable_pos_order(keys, j2, j1);
    }
}

/// `lf_next` picks the one index that lands at `k`.
pub proof fn lemma_lf_next_is(keys: Seq<u32>, k: int, j: int)
    requires
        0 <= j < keys.len(),
        stable_pos(keys, j) == k,
    ensures
        lf_next(keys, k) == j,
{
    let c = lf_next(keys, k);
    assert(0 <= c < keys.len() && stable_pos(keys, c) == k);
    lemma_stable_pos_injective(keys, c, j);
}

/// Every position has exactly one index of the keys that lands on it in the
/// stable sort.
pub proof fn lemma_lf_next_exists(keys: Seq<u32>, k: int)
    requires
        0 <= k < keys.len(),
    ensures
        0 <= lf_next(keys, k) < keys.len(),
        stable_pos(keys, lf_next(keys, k)) == k,
{
    let n = keys.len() as int;
    let f = |j: int| stable_pos(keys, j);
    assert forall|j: int| 0 <= j < n implies 0 <= #[trigger] f(j) < n by {
        lemma_stable_pos_range(keys, j);
    }
    assert forall|a: int, b: int| 0 <= a < n && 0 <= b < n && #[trigger] f(a) == #[trigger] f(b) implies a == b by {
        lemma_stable_pos_injective(keys, a, b);
    }
    let j = lemma_injective_onto(f, n, k);
    lemma_lf_next_is(keys, k, j);
}

/// `m` is where a run of equal keys starts.
pub open spec fn is_run_start(s: Seq<u32>, m: int) -> bool {
    m == 0 || s[m - 1] < s[m]
}

/// Finds where the run of the key `c` starts in ascending keys that hold it
/// at `at`.
fn run_start(sorted: &Vec<u32>, c: u32, Ghost(at): Ghost<int>) -> (lb: usize)
    requires
        is_ascending(sorted@),
        0 <= at < sorted@.len(),
        sorted@[at] == c,
    ensures
        lb < sorted@.len(),
        sorted@[lb as int] == c,
        is_run_start(sorted@, lb as int),
{
    let mut lo: usize = 0;
    let mut hi: usize = sorted.len();
    while lo < hi
        invariant
            is_ascending(sorted@),
            0 <= at < sorted@.len(),
            sorted@[at] == c,
            lo <= hi <= sorted@.len(),
            forall|m: int| 0 <= m < lo ==> sorted@[m] < c,
            forall|m: int| hi <= m < sorted@.len() ==> sorted@[m] >= c,
        decreases hi - lo,
    {
        let mid = lo + (hi - lo) / 2;
        if sorted[mid] < c {
            proof {
                assert forall|m: int| 0 <= m <= mid implies sorted@[m] < c by {
                    if m < mid {
                        assert(sorted@[m] <= sorted@[mid as int]);
                    }
                }
            }
            lo = mid + 1;
        } else {
            proof {
                assert forall|m: int| mid <= m < sorted@.len() implies sorted@[m] >= c by {
                    if m > mid {
                        assert(sorted@[mid as int] <= sorted@[m]);
                    }
                }
            }
            hi = mid;
        }
    }
    assert(lo <= at) by {
        if lo > at {
            assert(sorted@[at] < c);
        }
    }
    proof {
        if lo < at {
            assert(sorted@[lo as int] <= sorted@[at]);
        }
    }
    lo
}

/// For each position of the stable sort of `keys`, the index that lands
/// there, given the keys in ascending order.
fn stable_order(keys: &Vec<u32>, sorted: &Vec<u32>) -> (t: Vec<usize>)
    requires
        sorted@.to_multiset() == keys@.to_multiset(),
        sorted@.len() == keys@.len(),
        is_ascending(sorted@),
    ensures
        t@.len() == keys@.len(),
        forall|k: int| 0 <= k < keys@.len() ==> (#[trigger] t@[k]) < keys@.len() && stable_pos(keys@, t@[k] as int) == k,
{
    broadcast use vstd::seq_lib::group_to_multiset_ensures;

    let n = keys.len();
    let mut used: Vec<usize> = Vec::new();
    let mut t: Vec<usize> = Vec::new();
    let mut m: usize = 0;
    while m < n
        invariant
            m <= n,
            used@.len() == m,
            t@.len() == m,
            forall|q: int| 0 <= q < m ==> used@[q] == 0,
        decreases n - m,
    {
        used.push(0);
        t.push(0);
        m += 1;
    }
    let mut j: usize = 0;
    while j < n
        invariant
            j <= n,
            n == keys@.len(),
            sorted@.to_multiset() == keys@.to_multiset(),
            sorted@.len() == keys@.len(),
            is_ascending(sorted@),
            used@.len() == n,
            t@.len() == n,
            forall|q: int| 0 <= q < n && is_run_start(sorted@, q) ==> (#[trigger] used@[q]) == count_equal(keys@.take(j as int), sorted@[q]),
            forall|q: int| 0 <= q < j ==> (#[trigger] t@[stable_pos(keys@, q)]) == q,
        decreases n - j,
    {
        let c = keys[j];
        proof {
            assert(keys@[j as int] == c);
            assert(keys@.contains(c));
            vstd::seq_lib::to_multiset_contains(keys@, c);
            vstd::seq_lib::to_multiset_contains(sorted@, c);
            assert(sorted@.contains(c));
        }
        let ghost at = choose|q: int| 0 <= q < sorted@.len() && sorted@[q] == c;
        let lb = run_start(sorted, c, Ghost(at));
        proof {
            lemma_count_less_ascending(sorted@, lb as int, n as int);
            assert(sorted@.take(n as int) =~= sorted@);
            lemma_counts_multiset(sorted@, keys@, c);
            lemma_stable_pos_range(keys@, j as int);
            lemma_counts_prefix(keys@, j as int, c);
            lemma_counts_bounded(keys@, c);
        }
        let pos = lb + used[lb];
        assert(pos == stable_pos(keys@, j as int));
        let ghost old_t = t@;
        let ghost old_used = used@;
        t.set(pos, j);
        used.set(lb, used[lb] + 1);
        proof {
            assert forall|q: int| 0 <= q < n && is_run_start(sorted@, q) implies (#[trigger] used@[q])
                == count_equal(keys@.take(j + 1), sorted@[q]) by {
                lemma_counts_take_step(keys@, j as int, sorted@[q]);
                if q != lb {
                    if sorted@[q] == c {
                        if q < lb {
                            assert(sorted@[q] <= sorted@[lb - 1]);
                        } else {
                            assert(sorted@[lb as int] <= sorted@[q - 1]);
                        }
                    }
                    assert(used@[q] == old_used[q]);
                }
            }
            assert forall|q: int| 0 <= q < j + 1 implies (#[trigger] t@[stable_pos(keys@, q)]) == q by {
                if q < j {
                    lemma_stable_pos_range(keys@, q);
                    if stable_pos(keys@, q) == pos {
                        lemma_stable_pos_injective(keys@, q, j as int);
                    }
                    assert(t@[stable_pos(keys@, q)] == old_t[stable_pos(keys@, q)]);
                }
            }
        }
        j += 1;
    }
    proof {
        assert forall|k: int| 0 <= k < n implies (#[trigger] t@[k]) < n && stable_pos(keys@, t@[k] as int) == k by {
            lemma_lf_next_exists(keys@, k);
            let q = lf_next(keys@, k);
            assert(t@[stable_pos(keys@, q)] == q);
        }
    }
    t
}

/// When all keys are equal, each index lands at its own position in the
/// stable sort.
pub proof fn lemma_stable_pos_constant(keys: Seq<u32>, j: int)
    requires
        0 <= j < keys.len(),
        !has_two_keys(keys),
    ensures
        stable_pos(keys, j) == j,
{
    let c = keys[j];
    assert forall|k: int| 0 <= k < keys.len() implies keys[k] == c by {
        if keys[k] != c {
            assert(has_two_keys(keys));
        }
    }
    lemma_counts_constant(keys, c);
    lemma_counts_constant(keys.take(j), c);
}

/// The stable order of keys that are all equal: every index stays where it is.
fn identity_order(keys: &Vec<u32>) -> (t: Vec<usize>)
    requires
        !has_two_keys(keys@),
    ensures
        t@.len() == keys@.len(),
        forall|k: int| 0 <= k < keys@.len() ==> (#[trigger] t@[k]) < keys@.len() && stable_pos(keys@, t@[k] as int) == k,
{
    let n = keys.len();
    let mut t: Vec<usize> = Vec::new();
    let mut k: usize = 0;
    while k < n
        invariant
            k <= n,
            n == keys@.len(),
            !has_two_keys(keys@),
            t@.len() == k,
            forall|q: int| 0 <= q < k ==> (#[trigger] t@[q]) < n && stable_pos(keys@, t@[q] as int) == q,
        decreases n - k,
    {
        proof {
            lemma_stable_pos_constant(keys@, k as int);
        }
        t.push(k);
        k += 1;
    }
    t
}

/// Inverts the Burrows-Wheeler transform: from the last column `code` and the
/// row `no` at which the block stands, rebuilds the block.
pub fn bwt_decode<T: Symbol>(code: Vec<T>, no: usize) -> (res: Vec<T>)
    requires
        no < code@.len(),
        span_fits(keys_of(code@)),
    ensures
        res@ == bwt_inverse(code@, no as int),
{
    let n = code.len();
    let mut keys: Vec<u32> = Vec::new();
    let mut j: usize = 0;
    while j < n
        invariant
            j <= n,
            n == code@.len(),
            keys@ == keys_of(code@).take(j as int),
        decreases n - j,
    {
        let key = code[j].to_key();
        proof {
            assert(keys@.push(key) =~= keys_of(code@).take(j + 1));
        }
        keys.push(key);
        j += 1;
    }
    assert(keys@ =~= keys_of(code@));
    let order = match cnt_sort_keys(&keys) {
        Ok(sorted) => {
            proof {
                broadcast use vstd::seq_lib::group_to_multiset_ensures;
                assert(sorted@.len() == sorted@.to_multiset().len());
            }
            stable_order(&keys, &sorted)
        },
        Err(_) => identity_order(&keys),
    };
    let mut pos = no;
    let mut res: Vec<T> = Vec::new();
    let mut i: usize = 0;
    while i < n
        invariant
            i <= n,
            n == code@.len(),
            keys@ == keys_of(code@),
            order@.len() == n,
            forall|k: int| 0 <= k < n ==> (#[trigger] order@[k]) < n && stable_pos(keys@, order@[k] as int) == k,
            pos < n,
            pos == lf_walk(keys@, no as int, i as nat),
            res@ == bwt_inverse(code@, no as int).take(i as int),
        decreases n - i,
    {
        let next = order[pos];
        proof {
            lemma_lf_next_is(keys@, pos as int, next as int);
        }
        pos = next;
        proof {
            assert(res@.push(code@[pos as int]) =~= bwt_inverse(code@, no as int).take(i + 1));
        }
        res.push(code[pos]);
        i += 1;
    }
    assert(res@ =~= bwt_inverse(code@, no as int));
    res
}

} // verus!
