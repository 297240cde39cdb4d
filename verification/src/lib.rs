//! Block transforms for lossless compression: the Burrows-Wheeler transform
//! and move-to-front coding, with their inverses.
use vstd::prelude::*;

pub mod symbol;
pub mod lex;
pub mod perm;
pub mod counts;
pub mod keysort;
pub mod bwt;
pub mod bwt_laws;
pub mod mtf;
pub mod header;
pub mod blocks;

pub use blocks::{bwt_decode_blocks, bwt_encode_blocks};
pub use bwt::{bwt_decode, bwt_encode, create_all_rotations};
pub use mtf::{move_to_front, move_to_front_decode, move_to_front_decode_r_w, move_to_front_rw};
pub use symbol::Symbol;

verus! {

/// Adds two unsigned integers.
pub fn add(left: u64, right: u64) -> (sum: u64)
    requires
        left + right <= u64::MAX,
    ensures
        sum == left + right,
{
    left + right
}

} // verus!
