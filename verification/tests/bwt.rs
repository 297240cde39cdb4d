use bwt_mtf::{add, bwt_decode, bwt_encode, create_all_rotations};
use std::io::Read;

#[test]
fn bwt_text() {
    let thing: Vec<_> = "ананас".chars().map(|ch| ch as u32).collect();
    let res = bwt_encode(&thing);
    let comp: (Vec<char>, usize) = (
        res.0.iter().map(|u| char::from_u32(*u).unwrap()).collect(),
        res.1,
    );
    println!("res: {comp:?}");
    let expected_: Vec<_> = "сннааа".chars().collect();
    assert_eq!((expected_, 0usize), comp);
    let decoded = bwt_decode(res.0, res.1);
    let _comp_decoded: Vec<_> = decoded.iter().map(|u| char::from_u32(*u).unwrap()).collect();
    assert_eq!(thing, decoded);
}

#[test]
fn bwt_u8() {
    let thing = [99u8, 2, 5, 7, 14];
    println!("{:?}", create_all_rotations(&thing));
    let res = bwt_encode(&thing);
    println!("res: {res:?}");
    let expected_ = vec![99, 2, 5, 7, 14];
    assert_eq!((expected_, 4usize), res);
    let decoded = bwt_decode(res.0, res.1);
    assert_eq!(decoded, thing);
}

#[test]
fn bwt_text_big() {
    let text = "The Project Gutenberg eBook of The Ethics of Aristotle
    
This ebook is for the use of anyone anywhere in the United States and
most other parts of the world at no cost and with almost no restrictions
whatsoever. You may copy it, give it away or re-use it under the terms
of the Project Gutenberg License included with this ebook or online
at www.gutenberg.org. If you are not located in the United States,
you will have to check the laws of the country where you are located
before using this eBook."
        .to_string();
    let thing = text.as_bytes();
    let mut cursor = std::io::Cursor::new(&thing);
    let mut buff_sm = [0; 8];
    let mut collecting: Vec<u8> = vec![];
    loop {
        let size = match cursor.read(&mut buff_sm) {
            Ok(size) if size > 0 => size,
            _ => break,
        };
        let (mut res, n0) = bwt_encode(&buff_sm[0..size]);
        collecting.push(n0.try_into().unwrap());
        collecting.append(&mut res);
    }
    let mut cursor = std::io::Cursor::new(&collecting);
    let mut out_buff = [0u8; 9];
    let mut decoded: Vec<u8> = vec![];
    loop {
        let size = match cursor.read(&mut out_buff) {
            Ok(size) if size > 0 => size,
            _ => break,
        };
        let mut res = bwt_decode(out_buff[1..size].into(), out_buff[0].into());
        decoded.append(&mut res);
    }

    assert_eq!(decoded, thing);
}

#[test]
fn add_sums() {
    assert_eq!(add(2, 3), 5);
    assert_eq!(add(u64::MAX - 1, 1), u64::MAX);
}

#[test]
fn rotations_of_three() {
    let input = [1u8, 2, 3];
    let table = create_all_rotations(&input);
    assert_eq!(table.len(), 3);
    let rows: Vec<(Vec<u8>, bool)> = table
        .iter()
        .map(|(r, f)| (r.iter().map(|x| **x).collect(), *f))
        .collect();
    assert_eq!(
        rows,
        vec![
            (vec![1, 2, 3], true),
            (vec![2, 3, 1], false),
            (vec![3, 1, 2], false)
        ]
    );
}

#[test]
fn rotations_of_nothing() {
    let input: [u8; 0] = [];
    assert!(create_all_rotations(&input).is_empty());
}

#[test]
fn banana_encodes_to_known_column() {
    let (column, row) = bwt_encode(b"banana");
    assert_eq!(column, b"nnbaaa".to_vec());
    assert_eq!(row, 3);
    assert_eq!(bwt_decode(column, row), b"banana".to_vec());
}

#[test]
fn periodic_block_puts_block_after_equal_rotations() {
    let (column, row) = bwt_encode(b"abab");
    assert_eq!(column, b"bbaa".to_vec());
    assert_eq!(row, 1);
    assert_eq!(bwt_decode(column, row), b"abab".to_vec());
}

#[test]
fn single_symbol_block() {
    let (column, row) = bwt_encode(&[7u8]);
    assert_eq!(column, vec![7u8]);
    assert_eq!(row, 0);
}

#[test]
fn equal_symbols_block() {
    let (column, row) = bwt_encode(&[5u16, 5, 5]);
    assert_eq!(column, vec![5u16, 5, 5]);
    assert_eq!(row, 2);
}

#[test]
fn decode_known_column() {
    // the last column of "mississippi"
    let (column, row) = bwt_encode(b"mississippi");
    assert_eq!(column, b"pssmipissii".to_vec());
    assert_eq!(row, 4);
    assert_eq!(bwt_decode(b"pssmipissii".to_vec(), 4), b"mississippi".to_vec());
}

#[test]
fn round_trip_chars() {
    let text: Vec<char> = "hello, world".chars().collect();
    let (column, row) = bwt_encode(&text);
    let mut sorted_in = text.clone();
    sorted_in.sort();
    let mut sorted_out = column.clone();
    sorted_out.sort();
    assert_eq!(sorted_in, sorted_out);
    assert_eq!(bwt_decode(column, row), text);
}

#[test]
fn decode_of_arbitrary_column() {
    // [2, 1] is the column of [1, 2] (block at row 0) and of [2, 1] (block at row 1)
    assert_eq!(bwt_decode(vec![2u8, 1], 0), vec![1u8, 2]);
    assert_eq!(bwt_decode(vec![2u8, 1], 1), vec![2u8, 1]);
    // a column that comes from no block: the walk stays on the row it starts at
    assert_eq!(bwt_decode(vec![1u8, 2, 1, 2], 0), vec![1u8, 1, 1, 1]);
}

#[test]
fn decode_of_one_repeated_symbol() {
    assert_eq!(bwt_decode(vec![5u8, 5, 5], 2), vec![5u8, 5, 5]);
    assert_eq!(bwt_decode(vec!['q'], 0), vec!['q']);
}

#[test]
fn rotating_a_block_keeps_its_column() {
    let block = b"mississippi".to_vec();
    let (column, _) = bwt_encode(&block);
    for k in 0..block.len() {
        let mut rotated = block[k..].to_vec();
        rotated.extend_from_slice(&block[..k]);
        let (c, row) = bwt_encode(&rotated);
        assert_eq!(c, column);
        assert_eq!(bwt_decode(c, row), rotated);
    }
}
