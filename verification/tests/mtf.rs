use bwt_mtf::{move_to_front, move_to_front_decode, move_to_front_decode_r_w, move_to_front_rw};

const PREAMBLE: &str = "The Project Gutenberg eBook of The Ethics of Aristotle
    
This ebook is for the use of anyone anywhere in the United States and
most other parts of the world at no cost and with almost no restrictions
whatsoever. You may copy it, give it away or re-use it under the terms
of the Project Gutenberg License included with this ebook or online
at www.gutenberg.org. If you are not located in the United States,
you will have to check the laws of the country where you are located
before using this eBook...";

#[test]
fn forward_encode_decode() {
    let input: Vec<char> = "ccccbdbdbdeee".chars().collect();
    let alphabet = ['a', 'b', 'c', 'd', 'e', 'f'];
    let mut alph_1 = Vec::from(alphabet.clone());
    let mut alph_2 = Vec::from(alphabet.clone());
    let encoded = move_to_front(&mut alph_1, input.as_slice());

    println!("encoded: {}", encoded.iter().map(|u| alphabet[*u]).collect::<String>());
    let dec = move_to_front_decode(&mut alph_2, &encoded);

    println!("decoded: {}", dec.iter().collect::<String>());
    assert_eq!(dec, input)
}

#[test]
fn mtf_text_big() {
    let original_vu8 = PREAMBLE.as_bytes();
    println!("{}", original_vu8.len());
    let alph = (0..=u8::MAX).map(|byte| byte).collect::<Vec<u8>>();
    let mut alphabet = Vec::new();
    alphabet.extend(&alph);
    let collecting: Vec<_> = move_to_front(&mut alphabet, &original_vu8);

    let mut alphabet_d = Vec::new();
    alphabet_d.extend(&alph);
    let decoded = move_to_front_decode(&mut alphabet_d, &collecting);

    println!("{:?}", std::str::from_utf8(&decoded));
    assert_eq!(original_vu8.len(), decoded.len());
    assert_eq!(original_vu8, decoded);
}

#[test]
fn codes_and_alphabet_after_each_symbol() {
    let mut alphabet = vec!['a', 'b', 'c'];
    let codes = move_to_front(&mut alphabet, &['c', 'c', 'b']);
    assert_eq!(codes, vec![2, 0, 2]);
    assert_eq!(alphabet, vec!['b', 'c', 'a']);
}

#[test]
fn repeated_symbol_codes_as_zero() {
    let mut alphabet = vec!['a', 'b', 'c'];
    let codes = move_to_front(&mut alphabet, &['b', 'b']);
    assert_eq!(codes, vec![1, 0]);
    assert_eq!(alphabet, vec!['b', 'a', 'c']);
}

#[test]
fn coded_symbol_moves_to_front() {
    let mut alphabet = vec![1u8, 2, 3, 4];
    let codes = move_to_front(&mut alphabet, &[3u8]);
    assert_eq!(codes, vec![2]);
    assert_eq!(alphabet, vec![3u8, 1, 2, 4]);
}

#[test]
fn first_occurrence_is_coded() {
    let mut alphabet = vec![9u8, 7, 9];
    let codes = move_to_front(&mut alphabet, &[9u8, 7]);
    assert_eq!(codes, vec![0, 1]);
    assert_eq!(alphabet, vec![7u8, 9, 9]);
}

#[test]
fn decode_reads_entries() {
    let mut alphabet = vec!['x', 'y', 'z'];
    let symbols = move_to_front_decode(&mut alphabet, &[1, 1, 2]);
    // [x y z] -> y, [y x z] -> x, [x y z] -> z
    assert_eq!(symbols, vec!['y', 'x', 'z']);
    assert_eq!(alphabet, vec!['z', 'x', 'y']);
}

#[test]
fn documented_codes_of_a_text() {
    let input: Vec<char> = "ccccbdbdbdeee".chars().collect();
    let mut alphabet = vec!['a', 'b', 'c', 'd', 'e', 'f'];
    let codes = move_to_front(&mut alphabet, &input);
    assert_eq!(codes, vec![2, 0, 0, 0, 2, 3, 1, 1, 1, 1, 4, 0, 0]);
    assert_eq!(alphabet, vec!['e', 'd', 'b', 'c', 'a', 'f']);
    let mut alphabet_d = vec!['a', 'b', 'c', 'd', 'e', 'f'];
    assert_eq!(move_to_front_decode(&mut alphabet_d, &codes), input);
    assert_eq!(alphabet_d, alphabet);
}

#[test]
fn byte_streams_of_repeats() {
    let alph: Vec<u8> = (0..=u8::MAX).collect();
    let mut a1 = alph.clone();
    let mut coded = Vec::new();
    move_to_front_rw(&mut a1, b"aab", &mut coded);
    assert_eq!(coded, vec![97u8, 0, 98]);
    let mut a2 = alph.clone();
    let mut plain = Vec::new();
    move_to_front_decode_r_w(&mut a2, &[97u8, 0, 98], &mut plain);
    assert_eq!(plain, b"aab".to_vec());
    assert_eq!(a1, a2);
}

#[test]
fn empty_input_leaves_alphabet() {
    let mut alphabet = vec![3u32, 1];
    assert!(move_to_front(&mut alphabet, &[]).is_empty());
    assert_eq!(alphabet, vec![3u32, 1]);
    assert!(move_to_front_decode(&mut alphabet, &[]).is_empty());
    assert_eq!(alphabet, vec![3u32, 1]);
}

#[test]
fn byte_streams_round_trip() {
    let alph: Vec<u8> = (0..=u8::MAX).collect();
    let mut enc_alph = alph.clone();
    let mut coded = vec![0xAAu8];
    move_to_front_rw(&mut enc_alph, PREAMBLE.as_bytes(), &mut coded);
    assert_eq!(coded.len(), PREAMBLE.len() + 1);
    assert_eq!(coded[0], 0xAA);
    let mut dec_alph = alph.clone();
    let mut plain = Vec::new();
    move_to_front_decode_r_w(&mut dec_alph, &coded[1..], &mut plain);
    assert_eq!(plain, PREAMBLE.as_bytes());
    assert_eq!(enc_alph, dec_alph);
}

#[test]
fn byte_stream_codes_match_generic_codes() {
    let alph: Vec<u8> = (0..=u8::MAX).collect();
    let mut a1 = alph.clone();
    let mut a2 = alph.clone();
    let generic = move_to_front(&mut a1, b"hello");
    let mut bytes = Vec::new();
    move_to_front_rw(&mut a2, b"hello", &mut bytes);
    assert_eq!(generic.iter().map(|c| *c as u8).collect::<Vec<u8>>(), bytes);
    assert_eq!(a1, a2);
    assert_eq!(generic, vec![104, 102, 108, 0, 111]);
}

#[test]
fn codes_of_decoded_symbols() {
    let alph = vec!['p', 'q', 'r', 's'];
    let codes = vec![3usize, 0, 2, 2, 1];
    let mut a1 = alph.clone();
    let symbols = move_to_front_decode(&mut a1, &codes);
    let mut a2 = alph.clone();
    assert_eq!(move_to_front(&mut a2, &symbols), codes);
}
