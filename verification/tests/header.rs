use bwt_mtf::header::{
    check_version, encode_header, parse_filled, parse_header_fields, Encoding, FilledOption,
    HeaderError, FORMAT_VERSION,
};

#[test]
fn zwl_header_carries_filled_byte() {
    let h = encode_header(Encoding::ZWLU16, true, false, FilledOption::Freeze);
    assert_eq!(h, vec![0, 1, 1, 0, 1]);
}

#[test]
fn huffman_header_has_no_filled_byte() {
    let h = encode_header(Encoding::Huffman, false, true, FilledOption::Freeze);
    assert_eq!(h, vec![0, 4, 0, 1]);
}

#[test]
fn header_round_trips() {
    for e in [
        Encoding::ZWLU12,
        Encoding::ZWLU16,
        Encoding::ZWLU32,
        Encoding::ZWLU64,
        Encoding::Huffman,
    ] {
        for bwt in [false, true] {
            for mtf in [false, true] {
                for f in [FilledOption::Clear, FilledOption::Freeze] {
                    let h = encode_header(e, bwt, mtf, f);
                    assert_eq!(check_version(h[0]), Ok(()));
                    assert_eq!(parse_header_fields(&h[1..4]), Ok((e, bwt, mtf)));
                    assert_eq!(h.len(), if e == Encoding::Huffman { 4 } else { 5 });
                    if e.has_filled_byte() {
                        assert_eq!(parse_filled(h[4]), Ok(f));
                    }
                }
            }
        }
    }
}

#[test]
fn version_other_than_zero_is_refused() {
    assert_eq!(FORMAT_VERSION, 0);
    assert_eq!(check_version(1), Err(HeaderError::UnsupportedVersion(1)));
}

#[test]
fn unknown_encoding_is_refused() {
    assert_eq!(parse_header_fields(&[5, 0, 0]), Err(HeaderError::UnknownEncoding(5)));
}

#[test]
fn bad_flags_are_refused() {
    assert_eq!(parse_header_fields(&[0, 2, 0]), Err(HeaderError::BadHeader(2)));
    assert_eq!(parse_header_fields(&[0, 1, 7]), Err(HeaderError::BadHeader(7)));
    assert_eq!(parse_filled(3), Err(HeaderError::BadHeader(3)));
}

#[test]
fn encoding_bytes() {
    assert_eq!(Encoding::from_byte(3), Some(Encoding::ZWLU64));
    assert_eq!(Encoding::from_byte(9), None);
    assert_eq!(Encoding::Huffman.to_byte(), 4);
    assert_eq!(FilledOption::Freeze.to_byte(), 1);
}

#[test]
fn file_suffixes() {
    assert_eq!(Encoding::Huffman.file_suffix(), ".huffman");
    assert_eq!(Encoding::ZWLU12.file_suffix(), ".zwl");
}
