//! Checks the library against the plain algorithms on many inputs.
use bwt_mtf::{bwt_decode, bwt_encode, move_to_front, move_to_front_decode};
use std::collections::LinkedList;

fn reference_bwt<T: Clone + Ord>(input: &[T]) -> (Vec<T>, usize) {
    let n = input.len();
    let mut table: Vec<(Vec<T>, bool)> = (0..n)
        .map(|i| {
            let mut c = input.to_vec();
            c.rotate_left(i);
            (c, i == 0)
        })
        .collect();
    table.sort();
    let o = table.iter().position(|(_, b)| *b).unwrap();
    (table.iter().map(|t| t.0[n - 1].clone()).collect(), o)
}

fn reference_mtf<T: Eq + Clone>(alphabet: &mut LinkedList<T>, input: &[T]) -> Vec<usize> {
    let mut output = vec![];
    for symbol in input {
        let pos = alphabet.iter().position(|q| q == symbol).unwrap();
        let mut second = alphabet.split_off(pos);
        let entry = second.pop_front().unwrap();
        alphabet.push_front(entry);
        alphabet.append(&mut second);
        output.push(pos);
    }
    output
}

struct Lcg(u64);

impl Lcg {
    fn next(&mut self) -> u64 {
        self.0 = self.0.wrapping_mul(6364136223846793005).wrapping_add(1442695040888963407);
        self.0 >> 33
    }
}

#[test]
fn bwt_matches_sorting_the_rotation_table() {
    let mut rng = Lcg(7);
    for len in 1..12 {
        for _ in 0..40 {
            let range = 1 + rng.next() % 4;
            let block: Vec<u8> = (0..len).map(|_| (rng.next() % range) as u8 + b'a').collect();
            let ours = bwt_encode(&block);
            assert_eq!(ours, reference_bwt(&block), "block {:?}", block);
            if block.iter().any(|b| *b != block[0]) {
                assert_eq!(bwt_decode(ours.0, ours.1), block);
            }
        }
    }
}

#[test]
fn bwt_of_signed_symbols() {
    let block = vec![-3i8, 5, -3, 0, -128, 127];
    let ours = bwt_encode(&block);
    assert_eq!(ours, reference_bwt(&block));
    assert_eq!(bwt_decode(ours.0, ours.1), block);
    let wide = vec![-70000i32, 3, 2_000_000_000, -70000, 3];
    let ours = bwt_encode(&wide);
    assert_eq!(ours, reference_bwt(&wide));
}

#[test]
fn mtf_matches_linked_list_coder() {
    let mut rng = Lcg(11);
    for len in 0..30 {
        let alph: Vec<u16> = vec![4, 8, 15, 16, 23, 42, 8];
        let input: Vec<u16> = (0..len).map(|_| alph[(rng.next() % 7) as usize]).collect();
        let mut list: LinkedList<u16> = alph.iter().cloned().collect();
        let expected = reference_mtf(&mut list, &input);
        let mut ours_alph = alph.clone();
        let ours = move_to_front(&mut ours_alph, &input);
        assert_eq!(ours, expected);
        assert_eq!(ours_alph, list.iter().cloned().collect::<Vec<u16>>());
        let mut dec_alph = alph.clone();
        assert_eq!(move_to_front_decode(&mut dec_alph, &ours), input);
        assert_eq!(dec_alph, ours_alph);
    }
}
