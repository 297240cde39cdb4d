//! The block format of the transform stage of a compressed file: the data is
//! cut into blocks of eight bytes (the last one may be shorter), and each
//! block is written as the byte of its row followed by its last column.
use vstd::prelude::*;
use vstd::slice::{slice_subrange, slice_to_vec};
use crate::bwt::{
    bwt_column, bwt_decode, bwt_encode, bwt_inverse, bwt_order, bwt_row, keys_of, last_column,
    lemma_bwt_order_exists,
};
use crate::bwt_laws::lemma_bwt_column_round_trip;
use crate::keysort::span_fits;
use crate::symbol::Symbol;
use crate::mtf::{
    byte_codes, codes_as_bytes, full_byte_alphabet, lemma_byte_mtf_round_trip, mtf_codes, mtf_symbols,
};

verus! {

/// The number of data bytes in a block.
pub const BLOCK_LEN: usize = 8;

/// The bytes that encode `data`, block by block.
pub open spec fn encoded_blocks(data: Seq<u8>) -> Seq<u8>
    decreases data.len(),
{
    if data.len() == 0 {
        Seq::empty()
    } else {
        let size = if data.len() < BLOCK_LEN { data.len() as int } else { BLOCK_LEN as int };
        let chunk = data.take(size);
        seq![bwt_row(chunk) as u8] + bwt_column(chunk) + encoded_blocks(data.skip(size))
    }
}

/// The data that encoded blocks stand for: blocks of up to nine bytes, each a
/// row byte and a last column, until at most one byte is left; `None` when a
/// row byte does not name a row of its block.
pub open spec fn decoded_blocks(data: Seq<u8>) -> Option<Seq<u8>>
    decreases data.len(),
{
    if data.len() <= 1 {
        Some(Seq::empty())
    } else {
        let size = if data.len() < BLOCK_LEN + 1 { data.len() as int } else { BLOCK_LEN + 1 };
        let block = data.take(size);
        if block[0] >= size - 1 {
            None
        } else {
            match decoded_blocks(data.skip(size)) {
                None => None,
                Some(rest) => Some(bwt_inverse(block.skip(1), block[0] as int) + rest),
            }
        }
    }
}

/// `pre` followed by what `rest` stands for, if anything.
pub open spec fn prepend_decoded(pre: Seq<u8>, rest: Option<Seq<u8>>) -> Option<Seq<u8>> {
    match rest {
        None => None,
        Some(r) => Some(pre + r),
    }
}

/// Cuts `data` into blocks and writes each as its row byte and its last
/// column.
pub fn bwt_encode_blocks(data: &[u8]) -> (out: Vec<u8>)
    ensures
        out@ == encoded_blocks(data@),
{
    let mut out: Vec<u8> = Vec::new();
    let mut start: usize = 0;
    assert(data@.skip(0) =~= data@);
    assert(out@ + encoded_blocks(data@) =~= encoded_blocks(data@));
    while start < data.len()
        invariant
            start <= data@.len(),
            encoded_blocks(data@) == out@ + encoded_blocks(data@.skip(start as int)),
        decreases data@.len() - start,
    {
        let end = if data.len() - start < BLOCK_LEN { data.len() } else { start + BLOCK_LEN };
        let chunk = slice_subrange(data, start, end);
        let ghost rest = data@.skip(start as int);
        proof {
            assert(chunk@ =~= rest.take(end - start));
            assert(rest.skip(end - start) =~= data@.skip(end as int));
            lemma_bwt_column_round_trip(chunk@);
        }
        let (column, row) = bwt_encode(chunk);
        let ghost before = out@;
        out.push(row as u8);
        let mut column = column;
        out.append(&mut column);
        proof {
            assert(out@ =~= before + (seq![row as u8] + bwt_column(chunk@)));
        }
        start = end;
    }
    assert(data@.skip(data@.len() as int) =~= Seq::<u8>::empty());
    out
}

/// Inverts each block of `data`; `None` when a row byte does not name a row of
/// its block.
pub fn bwt_decode_blocks(data: &[u8]) -> (out: Option<Vec<u8>>)
    ensures
        out is None <==> decoded_blocks(data@) is None,
        out matches Some(v) ==> decoded_blocks(data@) == Some(v@),
{
    let mut out: Vec<u8> = Vec::new();
    let mut start: usize = 0;
    assert(data@.skip(0) =~= data@);
    proof {
        if decoded_blocks(data@) is Some {
            assert(out@ + decoded_blocks(data@)->0 =~= decoded_blocks(data@)->0);
        }
    }
    while data.len() - start > 1
        invariant
            start <= data@.len(),
            decoded_blocks(data@) == prepend_decoded(out@, decoded_blocks(data@.skip(start as int))),
        decreases data@.len() - start,
    {
        let size = if data.len() - start < BLOCK_LEN + 1 { data.len() - start } else { BLOCK_LEN + 1 };
        let block = slice_subrange(data, start, start + size);
        let ghost rest = data@.skip(start as int);
        proof {
            assert(block@ =~= rest.take(size as int));
            assert(rest.skip(size as int) =~= data@.skip(start + size));
        }
        let row = block[0] as usize;
        if row >= size - 1 {
            return None;
        }
        let code = slice_to_vec(slice_subrange(block, 1, size));
        proof {
            assert(code@ =~= block@.skip(1));
            assert forall|a: int, b: int| 0 <= a < code@.len() && 0 <= b < code@.len() implies keys_of(code@)[a]
                - keys_of(code@)[b] + 2 <= usize::MAX by {
                assert(keys_of(code@)[a] == code@[a].key());
                assert(keys_of(code@)[b] == code@[b].key());
            }
            assert(span_fits(keys_of(code@)));
        }
        let mut decoded = bwt_decode(code, row);
        let ghost before = out@;
        out.append(&mut decoded);
        proof {
            assert(before + bwt_inverse(block@.skip(1), row as int) + decoded_blocks(data@.skip(start + size))->0
                =~= out@ + decoded_blocks(data@.skip(start + size))->0);
        }
        start = start + size;
    }
    proof {
        assert(decoded_blocks(data@.skip(start as int)) == Some(Seq::<u8>::empty()));
        assert(out@ + Seq::<u8>::empty() =~= out@);
    }
    Some(out)
}

/// Law: the encoded data opens with a frame for its first block (the first
/// eight bytes, or all of them when fewer): the frame's first byte is the row
/// at which the block itself stands in its sorted rotation table, the bytes
/// after it are the block's last column, and inverting that column at that
/// row gives the block; the frames of the rest of the data follow.
pub proof fn lemma_encoded_first_frame(data: Seq<u8>)
    requires
        data.len() > 0,
    ensures
        ({
            let size = if data.len() < BLOCK_LEN { data.len() as int } else { BLOCK_LEN as int };
            let chunk = data.take(size);
            let e = encoded_blocks(data);
            &&& e.len() == size + 1 + encoded_blocks(data.skip(size)).len()
            &&& 0 <= e[0] < size
            &&& e[0] as int == bwt_row(chunk)
            &&& bwt_order(chunk)[e[0] as int] == 0
            &&& e.subrange(1, size + 1) == last_column(chunk, bwt_order(chunk))
            &&& bwt_inverse(e.subrange(1, size + 1), e[0] as int) == chunk
            &&& e.skip(size + 1) == encoded_blocks(data.skip(size))
        }),
{
    let size = if data.len() < BLOCK_LEN { data.len() as int } else { BLOCK_LEN as int };
    let chunk = data.take(size);
    lemma_bwt_order_exists(chunk);
    lemma_bwt_column_round_trip(chunk);
    let blk = seq![bwt_row(chunk) as u8] + bwt_column(chunk);
    let e = encoded_blocks(data);
    assert(e == blk + encoded_blocks(data.skip(size)));
    assert(e.subrange(1, size + 1) =~= bwt_column(chunk));
    assert(e.skip(size + 1) =~= encoded_blocks(data.skip(size)));
}

/// Law: a frame of a row byte `r` and a column of one to eight bytes, followed
/// by further frames when the column is a full block, decodes to the inverse
/// transform of the column at row `r` followed by what the further frames
/// decode to; it decodes to nothing when `r` names no row of the column.
pub proof fn lemma_decoded_frame(r: u8, col: Seq<u8>, rest: Seq<u8>)
    requires
        1 <= col.len() <= BLOCK_LEN,
        col.len() == BLOCK_LEN || rest.len() == 0,
    ensures
        decoded_blocks(seq![r] + col + rest) == (if (r as int) < col.len() {
            prepend_decoded(bwt_inverse(col, r as int), decoded_blocks(rest))
        } else {
            None::<Seq<u8>>
        }),
{
    let d = seq![r] + col + rest;
    let size: int = col.len() as int + 1;
    assert(d.take(size) =~= seq![r] + col);
    assert(d.take(size).skip(1) =~= col);
    assert(d.skip(size) =~= rest);
    if rest.len() == 0 {
        assert(decoded_blocks(rest) == Some(Seq::<u8>::empty()));
        if (r as int) < col.len() {
            assert(bwt_inverse(col, r as int) + Seq::<u8>::empty() =~= bwt_inverse(col, r as int));
        }
    }
}

/// Law: decoding the blocks that encode `data` gives `data` back.
pub proof fn lemma_blocks_round_trip(data: Seq<u8>)
    ensures
        decoded_blocks(encoded_blocks(data)) == Some(data),
    decreases data.len(),
{
    if data.len() > 0 {
        let size = if data.len() < BLOCK_LEN { data.len() as int } else { BLOCK_LEN as int };
        let chunk = data.take(size);
        let rest = data.skip(size);
        lemma_bwt_column_round_trip(chunk);
        lemma_blocks_round_trip(rest);
        let blk = seq![bwt_row(chunk) as u8] + bwt_column(chunk);
        let e = encoded_blocks(data);
        assert(e == blk + encoded_blocks(rest));
        if size < BLOCK_LEN {
            assert(rest.len() == 0);
            assert(encoded_blocks(rest) == Seq::<u8>::empty());
        }
        assert(e.take(size + 1) =~= blk);
        assert(e.skip(size + 1) =~= encoded_blocks(rest));
        assert(blk.skip(1) =~= bwt_column(chunk));
        assert(chunk + rest =~= data);
    } else {
        assert(encoded_blocks(data) == Seq::<u8>::empty());
    }
}

/// Law: the transform stage followed by move-to-front coding against the
/// full byte alphabet undoes itself: decoding the move-to-front codes (written
/// as bytes) and then the blocks gives the data back, and every code fits in a
/// byte.
pub proof fn lemma_blocks_mtf_round_trip(data: Seq<u8>)
    ensures
        forall|i: int| 0 <= i < encoded_blocks(data).len() ==> 0 <= #[trigger] mtf_codes(full_byte_alphabet(), encoded_blocks(data))[i] < 256,
        decoded_blocks(
            mtf_symbols(
                full_byte_alphabet(),
                byte_codes(codes_as_bytes(mtf_codes(full_byte_alphabet(), encoded_blocks(data)))),
            ),
        ) == Some(data),
{
    lemma_byte_mtf_round_trip(encoded_blocks(data));
    lemma_blocks_round_trip(data);
}

} // verus!
