//! The header that opens a compressed file: a format version, the entropy
//! coder, which transforms ran, and how a full dictionary behaves.
use vstd::prelude::*;

verus! {

/// The version of the header format that this library writes and reads.
pub const FORMAT_VERSION: u8 = 0;

/// The entropy coder that the last stage of compression uses.
#[derive(Clone, Copy, Debug, PartialEq, Eq, Structural)]
pub enum Encoding {
    ZWLU12,
    ZWLU16,
    ZWLU32,
    ZWLU64,
    Huffman,
}

/// What a dictionary coder does once its dictionary is full.
#[derive(Clone, Copy, Debug, PartialEq, Eq, Structural)]
pub enum FilledOption {
    Clear,
    Freeze,
}

/// Why a header cannot be read.
#[derive(Clone, Copy, Debug, PartialEq, Eq, Structural)]
pub enum HeaderError {
    /// The version byte names a format that this library does not read.
    UnsupportedVersion(u8),
    /// The byte does not name an encoding.
    UnknownEncoding(u8),
    /// A flag or option byte is neither 0 nor 1.
    BadHeader(u8),
}

/// The byte that stands for an encoding in a header.
pub open spec fn encoding_byte(e: Encoding) -> u8 {
    match e {
        Encoding::ZWLU12 => 0,
        Encoding::ZWLU16 => 1,
        Encoding::ZWLU32 => 2,
        Encoding::ZWLU64 => 3,
        Encoding::Huffman => 4,
    }
}

/// The width in bits of the codes of a dictionary encoding; none for Huffman.
pub open spec fn code_width(e: Encoding) -> Option<nat> {
    match e {
        Encoding::ZWLU12 => Some(12),
        Encoding::ZWLU16 => Some(16),
        Encoding::ZWLU32 => Some(32),
        Encoding::ZWLU64 => Some(64),
        Encoding::Huffman => None,
    }
}

/// The byte that stands for a full-dictionary behaviour in a header.
pub open spec fn filled_byte(f: FilledOption) -> u8 {
    match f {
        FilledOption::Clear => 0,
        FilledOption::Freeze => 1,
    }
}

/// The byte that stands for a flag in a header.
pub open spec fn flag_byte(b: bool) -> u8 {
    if b {
        1
    } else {
        0
    }
}

/// The encoding that a byte stands for, if any.
pub open spec fn encoding_of_byte(b: u8) -> Option<Encoding> {
    if b == 0 {
        Some(Encoding::ZWLU12)
    } else if b == 1 {
        Some(Encoding::ZWLU16)
    } else if b == 2 {
        Some(Encoding::ZWLU32)
    } else if b == 3 {
        Some(Encoding::ZWLU64)
    } else if b == 4 {
        Some(Encoding::Huffman)
    } else {
        None
    }
}

/// The flag that a byte stands for, if any.
pub open spec fn flag_of_byte(b: u8) -> Option<bool> {
    if b == 0 {
        Some(false)
    } else if b == 1 {
        Some(true)
    } else {
        None
    }
}

/// Whether a header with this encoding carries the full-dictionary byte.
pub open spec fn has_filled_byte(e: Encoding) -> bool {
    e != Encoding::Huffman
}

/// The bytes of the header written for these settings.
pub open spec fn header_bytes(encoding: Encoding, bwt: bool, mtf: bool, filled: FilledOption) -> Seq<u8> {
    let start = seq![FORMAT_VERSION, encoding_byte(encoding), flag_byte(bwt), flag_byte(mtf)];
    if has_filled_byte(encoding) {
        start.push(filled_byte(filled))
    } else {
        start
    }
}

/// What the three bytes after the version byte say: the encoding and the two
/// transform flags, or the first byte that is wrong.
pub open spec fn fields_of_bytes(bytes: Seq<u8>) -> Result<(Encoding, bool, bool), HeaderError> {
    match encoding_of_byte(bytes[0]) {
        None => Err(HeaderError::UnknownEncoding(bytes[0])),
        Some(e) => match flag_of_byte(bytes[1]) {
            None => Err(HeaderError::BadHeader(bytes[1])),
            Some(bwt) => match flag_of_byte(bytes[2]) {
                None => Err(HeaderError::BadHeader(bytes[2])),
                Some(mtf) => Ok((e, bwt, mtf)),
            },
        },
    }
}

/// What the full-dictionary byte says.
pub open spec fn filled_of_byte(b: u8) -> Result<FilledOption, HeaderError> {
    if b == 0 {
        Ok(FilledOption::Clear)
    } else if b == 1 {
        Ok(FilledOption::Freeze)
    } else {
        Err(HeaderError::BadHeader(b))
    }
}

impl Encoding {
    /// The byte that stands for the encoding in a header.
    pub fn to_byte(&self) -> (b: u8)
        ensures
            b == encoding_byte(*self),
    {
        match self {
            Encoding::ZWLU12 => 0,
            Encoding::ZWLU16 => 1,
            Encoding::ZWLU32 => 2,
            Encoding::ZWLU64 => 3,
            Encoding::Huffman => 4,
        }
    }

    /// The encoding that a header byte stands for; `None` for bytes above 4.
    pub fn from_byte(value: u8) -> (r: Option<Encoding>)
        ensures
            r == encoding_of_byte(value),
    {
        match value {
            0 => Some(Encoding::ZWLU12),
            1 => Some(Encoding::ZWLU16),
            2 => Some(Encoding::ZWLU32),
            3 => Some(Encoding::ZWLU64),
            4 => Some(Encoding::Huffman),
            _ => None,
        }
    }

    /// Whether a header with this encoding carries the full-dictionary byte.
    pub fn has_filled_byte(&self) -> (r: bool)
        ensures
            r == has_filled_byte(*self),
    {
        match self {
            Encoding::Huffman => false,
            _ => true,
        }
    }

    /// The suffix that a compressed file's extension gets for this encoding.
    pub fn file_suffix(&self) -> (s: &'static str)
        ensures
            s@ == (if *self == Encoding::Huffman { ".huffman"@ } else { ".zwl"@ }),
    {
        match self {
            Encoding::Huffman => ".huffman",
            _ => ".zwl",
        }
    }
}

impl FilledOption {
    /// The byte that stands for the behaviour in a header.
    pub fn to_byte(&self) -> (b: u8)
        ensures
            b == filled_byte(*self),
    {
        match self {
            FilledOption::Clear => 0,
            FilledOption::Freeze => 1,
        }
    }
}

fn flag_to_byte(b: bool) -> (r: u8)
    ensures
        r == flag_byte(b),
{
    if b {
        1
    } else {
        0
    }
}

fn flag_from_byte(b: u8) -> (r: Option<bool>)
    ensures
        r == flag_of_byte(b),
{
    match b {
        0 => Some(false),
        1 => Some(true),
        _ => None,
    }
}

/// The header for these settings: the version, the encoding, the two
/// transform flags and, unless the encoding is Huffman, the full-dictionary
/// behaviour.
pub fn encode_header(encoding: Encoding, bwt: bool, mtf: bool, filled: FilledOption) -> (header: Vec<u8>)
    ensures
        header@ == header_bytes(encoding, bwt, mtf, filled),
{
    let mut header: Vec<u8> = Vec::new();
    header.push(FORMAT_VERSION);
    header.push(encoding.to_byte());
    header.push(flag_to_byte(bwt));
    header.push(flag_to_byte(mtf));
    if encoding.has_filled_byte() {
        header.push(filled.to_byte());
    }
    assert(header@ =~= header_bytes(encoding, bwt, mtf, filled));
    header
}

/// Accepts the version byte of a header when it names this format.
pub fn check_version(version: u8) -> (r: Result<(), HeaderError>)
    ensures
        r == (if version == FORMAT_VERSION { Ok(()) } else { Err(HeaderError::UnsupportedVersion(version)) }),
{
    if version == FORMAT_VERSION {
        Ok(())
    } else {
        Err(HeaderError::UnsupportedVersion(version))
    }
}

/// Reads the three bytes after the version byte: the encoding and the flags of
/// the two transforms.
pub fn parse_header_fields(bytes: &[u8]) -> (r: Result<(Encoding, bool, bool), HeaderError>)
    requires
        bytes@.len() == 3,
    ensures
        r == fields_of_bytes(bytes@),
{
    let encoding = match Encoding::from_byte(bytes[0]) {
        Some(e) => e,
        None => {
            return Err(HeaderError::UnknownEncoding(bytes[0]));
        },
    };
    let bwt = match flag_from_byte(bytes[1]) {
        Some(b) => b,
        None => {
            return Err(HeaderError::BadHeader(bytes[1]));
        },
    };
    let mtf = match flag_from_byte(bytes[2]) {
        Some(b) => b,
        None => {
            return Err(HeaderError::BadHeader(bytes[2]));
        },
    };
    Ok((encoding, bwt, mtf))
}

/// Reads the full-dictionary byte of a header.
pub fn parse_filled(b: u8) -> (r: Result<FilledOption, HeaderError>)
    ensures
        r == filled_of_byte(b),
{
    match b {
        0 => Ok(FilledOption::Clear),
        1 => Ok(FilledOption::Freeze),
        _ => Err(HeaderError::BadHeader(b)),
    }
}

/// Law: reading a written header gives back its settings: the version is
/// accepted, the three bytes after it give the encoding and the flags, and
/// exactly the encodings that carry the full-dictionary byte carry it, which
/// gives the behaviour back.
pub proof fn lemma_header_round_trip(encoding: Encoding, bwt: bool, mtf: bool, filled: FilledOption)
    ensures
        header_bytes(encoding, bwt, mtf, filled)[0] == FORMAT_VERSION,
        fields_of_bytes(header_bytes(encoding, bwt, mtf, filled).subrange(1, 4)) == Ok::<
            (Encoding, bool, bool),
            HeaderError,
        >((encoding, bwt, mtf)),
        header_bytes(encoding, bwt, mtf, filled).len() == if has_filled_byte(encoding) { 5int } else { 4int },
        has_filled_byte(encoding) ==> filled_of_byte(header_bytes(encoding, bwt, mtf, filled)[4])
            == Ok::<FilledOption, HeaderError>(filled),
{
    let h = header_bytes(encoding, bwt, mtf, filled);
    assert(h.subrange(1, 4)[0] == encoding_byte(encoding));
    assert(h.subrange(1, 4)[1] == flag_byte(bwt));
    assert(h.subrange(1, 4)[2] == flag_byte(mtf));
}

/// Law: an encoding's byte stands for that encoding, and a byte that stands
/// for an encoding is that encoding's byte.
pub proof fn lemma_encoding_byte_round_trip(e: Encoding, b: u8)
    ensures
        encoding_of_byte(encoding_byte(e)) == Some(e),
        encoding_of_byte(b) matches Some(e2) ==> encoding_byte(e2) == b,
{
}

/// Law: the dictionary encodings take the bytes 0 to 3 in the order of their
/// code widths, narrowest first, and Huffman takes the byte 4; a byte stands
/// for an encoding exactly when it is that encoding's byte.
pub proof fn lemma_encoding_byte_order(e1: Encoding, e2: Encoding, b: u8)
    ensures
        code_width(e1) is None <==> encoding_byte(e1) == 4,
        code_width(e1) is Some ==> encoding_byte(e1) < 4,
        code_width(e1) matches Some(w1) ==> (code_width(e2) matches Some(w2) ==> (w1 < w2
            <==> encoding_byte(e1) < encoding_byte(e2))),
        encoding_of_byte(b) == Some(e1) <==> encoding_byte(e1) == b,
        encoding_of_byte(b) is Some <==> b < 5,
{
}

} // verus!
