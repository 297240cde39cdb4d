//! Move-to-front coding of symbols against an alphabet, and its inverse.
//!
//! Each symbol is coded by the index at which it first stands in the
//! alphabet, and is then moved to the front of the alphabet, so that a symbol
//! that repeats the one before it is coded as 0.
use vstd::prelude::*;
use crate::symbol::{Symbol, same_symbol};

verus! {

/// The alphabet with its entry at `p` moved to the front; the entries before
/// `p` move one place back.
pub open spec fn move_entry_to_front<T>(alph: Seq<T>, p: int) -> Seq<T> {
    seq![alph[p]] + alph.take(p) + alph.skip(p + 1)
}

/// `i` is where `x` first stands in `alph`.
pub open spec fn is_first_index<T>(alph: Seq<T>, x: T, i: int) -> bool {
    &&& 0 <= i < alph.len()
    &&& alph[i] == x
    &&& forall|j: int| 0 <= j < i ==> alph[j] != x
}

/// Where `x` first stands in `alph`.
pub open spec fn first_index<T>(alph: Seq<T>, x: T) -> int {
    choose|i: int| is_first_index(alph, x, i)
}

/// The coder's alphabet after the first `steps` symbols of `input`.
pub open spec fn encode_alphabet<T>(alph: Seq<T>, input: Seq<T>, steps: nat) -> Seq<T>
    decreases steps,
{
    if steps == 0 {
        alph
    } else {
        let a = encode_alphabet(alph, input, (steps - 1) as nat);
        move_entry_to_front(a, first_index(a, input[steps - 1]))
    }
}

/// The decoder's alphabet after the first `steps` codes of `codes`.
pub open spec fn decode_alphabet<T>(alph: Seq<T>, codes: Seq<int>, steps: nat) -> Seq<T>
    decreases steps,
{
    if steps == 0 {
        alph
    } else {
        move_entry_to_front(decode_alphabet(alph, codes, (steps - 1) as nat), codes[steps - 1])
    }
}

/// Every symbol of `input` is in `alph`.
pub open spec fn all_in<T>(alph: Seq<T>, input: Seq<T>) -> bool {
    forall|i: int| 0 <= i < input.len() ==> alph.contains(#[trigger] input[i])
}

/// The codes of `input` against the alphabet `alph`.
pub open spec fn mtf_codes<T>(alph: Seq<T>, input: Seq<T>) -> Seq<int> {
    Seq::new(
        input.len(),
        |i: int| first_index(encode_alphabet(alph, input, i as nat), input[i]),
    )
}

/// The symbols that the codes `codes` stand for against the alphabet `alph`.
pub open spec fn mtf_symbols<T>(alph: Seq<T>, codes: Seq<int>) -> Seq<T> {
    Seq::new(codes.len(), |i: int| decode_alphabet(alph, codes, i as nat)[codes[i]])
}

/// Indices as codes.
pub open spec fn usize_codes(s: Seq<usize>) -> Seq<int> {
    Seq::new(s.len(), |i: int| s[i] as int)
}

/// Bytes as codes.
pub open spec fn byte_codes(s: Seq<u8>) -> Seq<int> {
    Seq::new(s.len(), |i: int| s[i] as int)
}

/// Codes written as bytes.
pub open spec fn codes_as_bytes(c: Seq<int>) -> Seq<u8> {
    Seq::new(c.len(), |i: int| c[i] as u8)
}

/// The first index of a symbol is where it stands, and before it it does not.
pub proof fn lemma_first_index<T>(alph: Seq<T>, x: T, i: int)
    requires
        is_first_index(alph, x, i),
    ensures
        first_index(alph, x) == i,
{
    let c = first_index(alph, x);
    assert(is_first_index(alph, x, c));
    if c < i {
        assert(alph[c] != x);
    } else if i < c {
        assert(alph[i] != x);
    }
}

/// A symbol of the alphabet has a first index.
pub proof fn lemma_first_index_exists<T>(alph: Seq<T>, x: T)
    requires
        alph.contains(x),
    ensures
        is_first_index(alph, x, first_index(alph, x)),
    decreases alph.len(),
{
    let pre = alph.drop_last();
    if pre.contains(x) {
        lemma_first_index_exists(pre, x);
        let f = first_index(pre, x);
        assert forall|j: int| 0 <= j < f implies alph[j] != x by {
            assert(pre[j] == alph[j]);
        }
        assert(is_first_index(alph, x, f));
        lemma_first_index(alph, x, f);
    } else {
        let i = choose|i: int| 0 <= i < alph.len() && alph[i] == x;
        if i < alph.len() - 1 {
            assert(pre[i] == x);
        }
        assert forall|j: int| 0 <= j < alph.len() - 1 implies alph[j] != x by {
            if alph[j] == x {
                assert(pre[j] == x);
            }
        }
        assert(is_first_index(alph, x, alph.len() - 1));
        lemma_first_index(alph, x, alph.len() - 1);
    }
}

/// Moving an entry to the front keeps the entries of the alphabet and its
/// length, and keeps it free of repeated entries.
pub proof fn lemma_move_keeps<T>(alph: Seq<T>, p: int)
    requires
        0 <= p < alph.len(),
    ensures
        move_entry_to_front(alph, p).to_multiset() == alph.to_multiset(),
        move_entry_to_front(alph, p).len() == alph.len(),
        forall|x: T| alph.contains(x) <==> #[trigger] move_entry_to_front(alph, p).contains(x),
        alph.no_duplicates() ==> move_entry_to_front(alph, p).no_duplicates(),
{
    broadcast use vstd::seq_lib::group_to_multiset_ensures;
    broadcast use vstd::multiset::group_multiset_axioms;

    let m = move_entry_to_front(alph, p);
    let r = alph.remove(p);
    assert(m =~= r.insert(0, alph[p]));
    vstd::seq_lib::to_multiset_insert(r, 0, alph[p]);
    vstd::seq_lib::to_multiset_remove(alph, p);
    assert(alph.to_multiset().count(alph[p]) > 0);
    assert(alph.to_multiset().remove(alph[p]).insert(alph[p]) =~= alph.to_multiset());
    assert forall|x: T| alph.contains(x) <==> #[trigger] m.contains(x) by {
        assert(alph.contains(x) <==> alph.to_multiset().count(x) > 0);
        assert(m.contains(x) <==> m.to_multiset().count(x) > 0);
    }
    if alph.no_duplicates() {
        assert forall|i: int, j: int| 0 <= i < m.len() && 0 <= j < m.len() && i != j implies m[i] != m[j] by {
            let oi = if i == 0 { p } else if i <= p { i - 1 } else { i };
            let oj = if j == 0 { p } else if j <= p { j - 1 } else { j };
            assert(m[i] == alph[oi]);
            assert(m[j] == alph[oj]);
        }
    }
}

/// Law: one coding step moves only the entry that it codes: that entry comes
/// to the front, every entry before it moves exactly one place back, and
/// every entry after it keeps its index.
pub proof fn lemma_move_entry_positions<T>(alph: Seq<T>, p: int)
    requires
        0 <= p < alph.len(),
    ensures
        move_entry_to_front(alph, p).len() == alph.len(),
        move_entry_to_front(alph, p)[0] == alph[p],
        forall|j: int| 0 <= j < p ==> #[trigger] move_entry_to_front(alph, p)[j + 1] == alph[j],
        forall|j: int| p < j < alph.len() ==> #[trigger] move_entry_to_front(alph, p)[j] == alph[j],
{
}

/// Law: the coder's step `i`: the code of `input[i]` is where that symbol
/// first stands in the alphabet so far; afterwards the symbol heads the
/// alphabet, the entries before its old place move one place back, and those
/// after it keep their places.
pub proof fn lemma_encode_step<T>(alph: Seq<T>, input: Seq<T>, i: int)
    requires
        all_in(alph, input),
        0 <= i < input.len(),
    ensures
        ({
            let a = encode_alphabet(alph, input, i as nat);
            let c = mtf_codes(alph, input)[i];
            let n = encode_alphabet(alph, input, (i + 1) as nat);
            &&& 0 <= c < a.len()
            &&& a[c] == input[i]
            &&& forall|j: int| 0 <= j < c ==> a[j] != input[i]
            &&& n.len() == a.len()
            &&& n[0] == input[i]
            &&& forall|j: int| 0 <= j < c ==> #[trigger] n[j + 1] == a[j]
            &&& forall|j: int| c < j < a.len() ==> #[trigger] n[j] == a[j]
        }),
{
    lemma_encode_alphabet_keeps(alph, input, i as nat);
    let a = encode_alphabet(alph, input, i as nat);
    assert(alph.contains(input[i]));
    lemma_first_index_exists(a, input[i]);
    let c = first_index(a, input[i]);
    assert(mtf_codes(alph, input)[i] == c);
    lemma_move_entry_positions(a, c);
}

/// Law: the decoder's step `i`: code `codes[i]` stands for the entry at that
/// index of the alphabet so far; afterwards that entry heads the alphabet, the
/// entries before it move one place back, and those after it keep their
/// places.
pub proof fn lemma_decode_step<T>(alph: Seq<T>, codes: Seq<int>, i: int)
    requires
        forall|k: int| 0 <= k < codes.len() ==> 0 <= #[trigger] codes[k] < alph.len(),
        0 <= i < codes.len(),
    ensures
        ({
            let a = decode_alphabet(alph, codes, i as nat);
            let c = codes[i];
            let n = decode_alphabet(alph, codes, (i + 1) as nat);
            &&& mtf_symbols(alph, codes)[i] == a[c]
            &&& n.len() == a.len()
            &&& n[0] == a[c]
            &&& forall|j: int| 0 <= j < c ==> #[trigger] n[j + 1] == a[j]
            &&& forall|j: int| c < j < a.len() ==> #[trigger] n[j] == a[j]
        }),
{
    lemma_decode_alphabet_keeps(alph, codes, i as nat);
    lemma_move_entry_positions(decode_alphabet(alph, codes, i as nat), codes[i]);
}

/// Law: while the coder runs, its alphabet keeps its entries and its length,
/// and every symbol still to come stays in it.
pub proof fn lemma_encode_alphabet_keeps<T>(alph: Seq<T>, input: Seq<T>, steps: nat)
    requires
        all_in(alph, input),
        steps <= input.len(),
    ensures
        encode_alphabet(alph, input, steps).to_multiset() == alph.to_multiset(),
        encode_alphabet(alph, input, steps).len() == alph.len(),
        forall|x: T| alph.contains(x) <==> #[trigger] encode_alphabet(alph, input, steps).contains(x),
        alph.no_duplicates() ==> encode_alphabet(alph, input, steps).no_duplicates(),
    decreases steps,
{
    if steps > 0 {
        lemma_encode_alphabet_keeps(alph, input, (steps - 1) as nat);
        let a = encode_alphabet(alph, input, (steps - 1) as nat);
        assert(alph.contains(input[steps - 1]));
        lemma_first_index_exists(a, input[steps - 1]);
        lemma_move_keeps(a, first_index(a, input[steps - 1]));
    }
}

/// Law: while the decoder runs, its alphabet keeps its entries and its length.
pub proof fn lemma_decode_alphabet_keeps<T>(alph: Seq<T>, codes: Seq<int>, steps: nat)
    requires
        forall|i: int| 0 <= i < codes.len() ==> 0 <= #[trigger] codes[i] < alph.len(),
        steps <= codes.len(),
    ensures
        decode_alphabet(alph, codes, steps).to_multiset() == alph.to_multiset(),
        decode_alphabet(alph, codes, steps).len() == alph.len(),
        alph.no_duplicates() ==> decode_alphabet(alph, codes, steps).no_duplicates(),
    decreases steps,
{
    if steps > 0 {
        lemma_decode_alphabet_keeps(alph, codes, (steps - 1) as nat);
        lemma_move_keeps(decode_alphabet(alph, codes, (steps - 1) as nat), codes[steps - 1]);
    }
}

/// Moves the entry at `pos` of the alphabet to its front.
fn move_to_front_in_place<T>(alphabet: &mut Vec<T>, pos: usize)
    requires
        pos < old(alphabet)@.len(),
    ensures
        final(alphabet)@ == move_entry_to_front(old(alphabet)@, pos as int),
{
    let entry = alphabet.remove(pos);
    alphabet.insert(0, entry);
    assert(alphabet@ =~= move_entry_to_front(old(alphabet)@, pos as int));
}

/// Codes `input` against `alphabet`: each symbol becomes the index at which it
/// first stands in the alphabet, and is then moved to the front of the
/// alphabet.
pub fn move_to_front<T: Symbol>(alphabet: &mut Vec<T>, input: &[T]) -> (output: Vec<usize>)
    requires
        all_in(old(alphabet)@, input@),
    ensures
        usize_codes(output@) == mtf_codes(old(alphabet)@, input@),
        final(alphabet)@ == encode_alphabet(old(alphabet)@, input@, input@.len() as nat),
        forall|k: int| 0 <= k < output@.len() ==> #[trigger] output@[k] < old(alphabet)@.len(),
{
    let ghost alph0 = alphabet@;
    let mut output: Vec<usize> = Vec::new();
    let mut i: usize = 0;
    while i < input.len()
        invariant
            i <= input@.len(),
            all_in(alph0, input@),
            alphabet@ == encode_alphabet(alph0, input@, i as nat),
            usize_codes(output@) == mtf_codes(alph0, input@).take(i as int),
            forall|k: int| 0 <= k < output@.len() ==> #[trigger] output@[k] < alph0.len(),
        decreases input@.len() - i,
    {
        let symbol = input[i];
        proof {
            lemma_encode_alphabet_keeps(alph0, input@, i as nat);
            assert(alph0.contains(input@[i as int]));
            lemma_first_index_exists(alphabet@, symbol);
        }
        let ghost cur = alphabet@;
        let ghost f = first_index(cur, symbol);
        let mut pos: usize = 0;
        while !same_symbol(&alphabet[pos], &symbol)
            invariant
                alphabet@ == cur,
                cur.len() == alphabet.len(),
                f < alphabet.len(),
                is_first_index(cur, symbol, f),
                pos <= f,
                forall|j: int| 0 <= j < pos ==> cur[j] != symbol,
            decreases f - pos,
        {
            pos += 1;
        }
        proof {
            lemma_first_index(cur, symbol, pos as int);
        }
        move_to_front_in_place(alphabet, pos);
        let ghost before = output@;
        output.push(pos);
        proof {
            assert(output@ =~= before.push(pos));
            let lhs = usize_codes(output@);
            let rhs = mtf_codes(alph0, input@).take(i + 1);
            assert(usize_codes(before).len() == i);
            assert forall|k: int| 0 <= k < lhs.len() implies lhs[k] == rhs[k] by {
                if k < i {
                    assert(usize_codes(before)[k] == mtf_codes(alph0, input@).take(i as int)[k]);
                }
            }
            assert(lhs =~= rhs);
        }
        i += 1;
    }
    assert(mtf_codes(alph0, input@).take(input@.len() as int) =~= mtf_codes(alph0, input@));
    output
}

/// Decodes `input` against `alphabet`: each code `u` becomes the entry at `u`
/// of the alphabet, which is then moved to the front of the alphabet.
pub fn move_to_front_decode<T: Copy>(alphabet: &mut Vec<T>, input: &[usize]) -> (output: Vec<T>)
    requires
        forall|i: int| 0 <= i < input@.len() ==> #[trigger] input@[i] < old(alphabet)@.len(),
    ensures
        output@ == mtf_symbols(old(alphabet)@, usize_codes(input@)),
        final(alphabet)@ == decode_alphabet(old(alphabet)@, usize_codes(input@), input@.len() as nat),
{
    let ghost alph0 = alphabet@;
    let ghost codes = usize_codes(input@);
    let mut output: Vec<T> = Vec::new();
    let mut i: usize = 0;
    while i < input.len()
        invariant
            i <= input@.len(),
            codes == usize_codes(input@),
            forall|k: int| 0 <= k < input@.len() ==> #[trigger] input@[k] < alph0.len(),
            alphabet@ == decode_alphabet(alph0, codes, i as nat),
            output@ == mtf_symbols(alph0, codes).take(i as int),
        decreases input@.len() - i,
    {
        let u = input[i];
        proof {
            assert forall|k: int| 0 <= k < codes.len() implies 0 <= #[trigger] codes[k] < alph0.len() by {
                assert(input@[k] < alph0.len());
            }
            lemma_decode_alphabet_keeps(alph0, codes, i as nat);
        }
        let symbol = alphabet[u];
        move_to_front_in_place(alphabet, u);
        output.push(symbol);
        proof {
            assert(output@ =~= mtf_symbols(alph0, codes).take(i + 1));
        }
        i += 1;
    }
    assert(mtf_symbols(alph0, codes).take(input@.len() as int) =~= mtf_symbols(alph0, codes));
    output
}

/// Law: the codes of symbols of the alphabet stand for those symbols again,
/// the decoder's alphabet follows the coder's, and every code lies below the
/// length of the alphabet.
pub proof fn lemma_mtf_round_trip<T>(alph: Seq<T>, input: Seq<T>)
    requires
        all_in(alph, input),
    ensures
        mtf_symbols(alph, mtf_codes(alph, input)) == input,
        decode_alphabet(alph, mtf_codes(alph, input), input.len() as nat)
            == encode_alphabet(alph, input, input.len() as nat),
        forall|i: int| 0 <= i < input.len() ==> 0 <= #[trigger] mtf_codes(alph, input)[i] < alph.len(),
{
    let codes = mtf_codes(alph, input);
    assert forall|i: int| 0 <= i < input.len() implies 0 <= #[trigger] codes[i] < alph.len()
        && encode_alphabet(alph, input, i as nat)[codes[i]] == input[i] by {
        lemma_encode_alphabet_keeps(alph, input, i as nat);
        assert(alph.contains(input[i]));
        lemma_first_index_exists(encode_alphabet(alph, input, i as nat), input[i]);
    }
    lemma_mtf_alphabets_agree(alph, input, input.len() as nat);
    assert forall|i: int| 0 <= i < input.len() implies #[trigger] mtf_symbols(alph, codes)[i] == input[i] by {
        lemma_mtf_alphabets_agree(alph, input, i as nat);
    }
    assert(mtf_symbols(alph, codes) =~= input);
}

/// The decoder, fed the coder's codes, has the coder's alphabet at every step.
proof fn lemma_mtf_alphabets_agree<T>(alph: Seq<T>, input: Seq<T>, steps: nat)
    requires
        all_in(alph, input),
        steps <= input.len(),
    ensures
        decode_alphabet(alph, mtf_codes(alph, input), steps) == encode_alphabet(alph, input, steps),
    decreases steps,
{
    if steps > 0 {
        lemma_mtf_alphabets_agree(alph, input, (steps - 1) as nat);
    }
}

/// Law: a symbol is coded as 0 exactly when it repeats the symbol before it
/// (the first symbol: when it heads the alphabet).
pub proof fn lemma_mtf_repeat_codes_zero<T>(alph: Seq<T>, input: Seq<T>, i: int)
    requires
        all_in(alph, input),
        0 <= i < input.len(),
    ensures
        mtf_codes(alph, input)[i] == 0 <==> input[i] == (if i == 0 { alph[0] } else { input[i - 1] }),
{
    let a = encode_alphabet(alph, input, i as nat);
    lemma_encode_alphabet_keeps(alph, input, i as nat);
    assert(alph.contains(input[i]));
    lemma_first_index_exists(a, input[i]);
    if i > 0 {
        let b = encode_alphabet(alph, input, (i - 1) as nat);
        lemma_encode_alphabet_keeps(alph, input, (i - 1) as nat);
        assert(alph.contains(input[i - 1]));
        lemma_first_index_exists(b, input[i - 1]);
        assert(a[0] == input[i - 1]);
    }
    if a[0] == input[i] {
        lemma_first_index(a, input[i], 0);
    }
}

/// Law: against an alphabet without repeated entries, coding the symbols that
/// codes stand for gives the codes back.
pub proof fn lemma_mtf_codes_of_symbols<T>(alph: Seq<T>, codes: Seq<int>)
    requires
        alph.no_duplicates(),
        forall|i: int| 0 <= i < codes.len() ==> 0 <= #[trigger] codes[i] < alph.len(),
    ensures
        all_in(alph, mtf_symbols(alph, codes)),
        mtf_codes(alph, mtf_symbols(alph, codes)) == codes,
{
    let syms = mtf_symbols(alph, codes);
    assert forall|i: int| 0 <= i < codes.len() implies alph.contains(#[trigger] syms[i]) by {
        broadcast use vstd::seq_lib::group_to_multiset_ensures;

        lemma_decode_alphabet_keeps(alph, codes, i as nat);
        let a = decode_alphabet(alph, codes, i as nat);
        assert(a[codes[i]] == syms[i]);
        assert(a.contains(syms[i]));
        assert(a.to_multiset().count(syms[i]) > 0);
        assert(alph.to_multiset().count(syms[i]) > 0);
    }
    lemma_mtf_codes_agree(alph, codes, codes.len() as nat);
    assert forall|i: int| 0 <= i < codes.len() implies #[trigger] mtf_codes(alph, syms)[i] == codes[i] by {
        lemma_mtf_codes_agree(alph, codes, i as nat);
        lemma_decode_alphabet_keeps(alph, codes, i as nat);
        let a = decode_alphabet(alph, codes, i as nat);
        assert(is_first_index(a, syms[i], codes[i]));
        lemma_first_index(a, syms[i], codes[i]);
    }
    assert(mtf_codes(alph, syms) =~= codes);
}

/// The coder, fed the decoder's symbols, has the decoder's alphabet at every
/// step, when the alphabet has no repeated entries.
proof fn lemma_mtf_codes_agree<T>(alph: Seq<T>, codes: Seq<int>, steps: nat)
    requires
        alph.no_duplicates(),
        forall|i: int| 0 <= i < codes.len() ==> 0 <= #[trigger] codes[i] < alph.len(),
        steps <= codes.len(),
    ensures
        encode_alphabet(alph, mtf_symbols(alph, codes), steps) == decode_alphabet(alph, codes, steps),
    decreases steps,
{
    if steps > 0 {
        lemma_mtf_codes_agree(alph, codes, (steps - 1) as nat);
        let k = steps - 1;
        let a = decode_alphabet(alph, codes, k as nat);
        lemma_decode_alphabet_keeps(alph, codes, k as nat);
        assert(mtf_symbols(alph, codes)[k] == a[codes[k]]);
        assert(is_first_index(a, a[codes[k]], codes[k]));
        lemma_first_index(a, a[codes[k]], codes[k]);
    }
}

/// The byte alphabet in its first order: every byte at its own index.
pub open spec fn full_byte_alphabet() -> Seq<u8> {
    Seq::new(256, |i: int| i as u8)
}

/// Builds the byte alphabet in its first order, 0 to 255.
pub fn byte_alphabet() -> (alphabet: Vec<u8>)
    ensures
        alphabet@ == full_byte_alphabet(),
{
    let mut alphabet: Vec<u8> = Vec::new();
    let mut b: usize = 0;
    while b < 256
        invariant
            b <= 256,
            alphabet@ == full_byte_alphabet().take(b as int),
        decreases 256 - b,
    {
        alphabet.push(b as u8);
        assert(alphabet@ =~= full_byte_alphabet().take(b + 1));
        b += 1;
    }
    assert(alphabet@ =~= full_byte_alphabet());
    alphabet
}

/// Law: against the full byte alphabet every byte stream can be coded, every
/// code fits in a byte, and decoding the codes written as bytes gives the
/// stream back.
pub proof fn lemma_byte_mtf_round_trip(input: Seq<u8>)
    ensures
        all_in(full_byte_alphabet(), input),
        forall|i: int| 0 <= i < input.len() ==> 0 <= #[trigger] mtf_codes(full_byte_alphabet(), input)[i] < 256,
        mtf_symbols(
            full_byte_alphabet(),
            byte_codes(codes_as_bytes(mtf_codes(full_byte_alphabet(), input))),
        ) == input,
{
    let a = full_byte_alphabet();
    assert forall|i: int| 0 <= i < input.len() implies a.contains(#[trigger] input[i]) by {
        assert(a[input[i] as int] == input[i]);
    }
    lemma_mtf_round_trip(a, input);
    let codes = mtf_codes(a, input);
    assert(byte_codes(codes_as_bytes(codes)) =~= codes);
}

/// Codes a stream of bytes against a byte alphabet and appends the codes, as
/// bytes, to `output`.
pub fn move_to_front_rw(alphabet: &mut Vec<u8>, input: &[u8], output: &mut Vec<u8>)
    requires
        all_in(old(alphabet)@, input@),
        forall|i: int| 0 <= i < input@.len() ==> #[trigger] mtf_codes(old(alphabet)@, input@)[i] < 256,
    ensures
        final(output)@ == old(output)@ + codes_as_bytes(mtf_codes(old(alphabet)@, input@)),
        final(alphabet)@ == encode_alphabet(old(alphabet)@, input@, input@.len() as nat),
{
    let ghost codes = mtf_codes(alphabet@, input@);
    let ghost out0 = output@;
    let positions = move_to_front(alphabet, input);
    let mut k: usize = 0;
    while k < positions.len()
        invariant
            k <= positions@.len(),
            positions@.len() == codes.len(),
            usize_codes(positions@) == codes,
            forall|i: int| 0 <= i < codes.len() ==> #[trigger] codes[i] < 256,
            output@ == out0 + codes_as_bytes(codes).take(k as int),
        decreases positions@.len() - k,
    {
        let c = positions[k];
        assert(codes[k as int] == c as int);
        output.push(c as u8);
        assert(output@ =~= out0 + codes_as_bytes(codes).take(k + 1));
        k += 1;
    }
    assert(codes_as_bytes(codes).take(codes.len() as int) =~= codes_as_bytes(codes));
}

/// Decodes a stream of byte codes against a byte alphabet and appends the
/// symbols to `output`.
pub fn move_to_front_decode_r_w(alphabet: &mut Vec<u8>, input: &[u8], output: &mut Vec<u8>)
    requires
        forall|i: int| 0 <= i < input@.len() ==> #[trigger] input@[i] < old(alphabet)@.len(),
    ensures
        final(output)@ == old(output)@ + mtf_symbols(old(alphabet)@, byte_codes(input@)),
        final(alphabet)@ == decode_alphabet(old(alphabet)@, byte_codes(input@), input@.len() as nat),
{
    let mut codes: Vec<usize> = Vec::new();
    let mut k: usize = 0;
    while k < input.len()
        invariant
            k <= input@.len(),
            usize_codes(codes@) == byte_codes(input@).take(k as int),
            codes@.len() == k,
            forall|i: int| 0 <= i < k ==> #[trigger] codes@[i] == input@[i] as usize,
        decreases input@.len() - k,
    {
        codes.push(input[k] as usize);
        assert(usize_codes(codes@) =~= byte_codes(input@).take(k + 1));
        k += 1;
    }
    assert(byte_codes(input@).take(input@.len() as int) =~= byte_codes(input@));
    assert(usize_codes(codes@) =~= byte_codes(input@));
    let mut symbols = move_to_front_decode(alphabet, codes.as_slice());
    output.append(&mut symbols);
}

} // verus!
