use bwt_mtf::mtf::byte_alphabet;
use bwt_mtf::{
    bwt_decode_blocks, bwt_encode, bwt_encode_blocks, move_to_front_decode_r_w, move_to_front_rw,
};

const PREAMBLE: &str = "The Project Gutenberg eBook of The Ethics of Aristotle
    
This ebook is for the use of anyone anywhere in the United States and
most other parts of the world at no cost and with almost no restrictions
whatsoever. You may copy it, give it away or re-use it under the terms
of the Project Gutenberg License included with this ebook or online
at www.gutenberg.org. If you are not located in the United States,
you will have to check the laws of the country where you are located
before using this eBook...";

#[test]
fn one_short_block() {
    assert_eq!(bwt_encode_blocks(b"banana"), b"\x03nnbaaa".to_vec());
    assert_eq!(bwt_decode_blocks(b"\x03nnbaaa"), Some(b"banana".to_vec()));
}

#[test]
fn full_blocks_and_a_tail() {
    let data = b"abcdefghij";
    let encoded = bwt_encode_blocks(data);
    let (c1, r1) = bwt_encode(&data[0..8]);
    let (c2, r2) = bwt_encode(&data[8..10]);
    let mut expected = vec![r1 as u8];
    expected.extend(c1);
    expected.push(r2 as u8);
    expected.extend(c2);
    assert_eq!(encoded, expected);
    assert_eq!(encoded.len(), 12);
    assert_eq!(bwt_decode_blocks(&encoded), Some(data.to_vec()));
}

#[test]
fn text_round_trips_through_blocks() {
    let encoded = bwt_encode_blocks(PREAMBLE.as_bytes());
    assert_eq!(bwt_decode_blocks(&encoded), Some(PREAMBLE.as_bytes().to_vec()));
}

#[test]
fn blocks_of_one_repeated_byte_round_trip() {
    let data = vec![b'z'; 19];
    let encoded = bwt_encode_blocks(&data);
    assert_eq!(bwt_decode_blocks(&encoded), Some(data));
}

#[test]
fn empty_data() {
    assert!(bwt_encode_blocks(&[]).is_empty());
    assert_eq!(bwt_decode_blocks(&[]), Some(vec![]));
}

#[test]
fn trailing_single_byte_is_left_out() {
    assert_eq!(bwt_decode_blocks(b"\x01ba"), Some(b"ba".to_vec()));
    let mut data = bwt_encode_blocks(b"abcdefgh");
    assert_eq!(data.len(), 9);
    data.push(7);
    assert_eq!(bwt_decode_blocks(&data), Some(b"abcdefgh".to_vec()));
}

#[test]
fn row_byte_past_its_block_is_refused() {
    assert_eq!(bwt_decode_blocks(b"\x06nnbaaa"), None);
    assert_eq!(bwt_decode_blocks(b"\x09abcdefgh\x00xy"), None);
    assert_eq!(bwt_decode_blocks(b"\x00abcdefgh\x02xy"), None);
}

#[test]
fn blocks_then_move_to_front_round_trip() {
    for data in [PREAMBLE.as_bytes().to_vec(), vec![0u8; 17], vec![255u8, 0, 255, 1], vec![]] {
        let blocks = bwt_encode_blocks(&data);
        let mut enc_alph = byte_alphabet();
        let mut coded = Vec::new();
        move_to_front_rw(&mut enc_alph, &blocks, &mut coded);
        let mut dec_alph = byte_alphabet();
        let mut uncoded = Vec::new();
        move_to_front_decode_r_w(&mut dec_alph, &coded, &mut uncoded);
        assert_eq!(uncoded, blocks);
        assert_eq!(enc_alph, dec_alph);
        assert_eq!(bwt_decode_blocks(&uncoded), Some(data));
    }
}

#[test]
fn byte_alphabet_in_order() {
    let a = byte_alphabet();
    assert_eq!(a, (0..=255u8).collect::<Vec<u8>>());
}
