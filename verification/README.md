# bwt_mtf

Block transforms used ahead of an entropy coder, verified with Verus.

- `src/bwt.rs`: the Burrows-Wheeler transform of a block (`bwt_encode`) and its
  inverse (`bwt_decode`), which sorts the keys of the last column with the
  `counting_sort` crate (`src/keysort.rs`).
- `src/bwt_laws.rs`: the inverse gives the block back; the transform does not
  depend on how ties among equal rotations are ordered; the last column holds
  the symbols of the block; rotating a block keeps its last column.
- `src/blocks.rs`: the block format of the transform stage (blocks of eight
  bytes, each written as its row byte and its last column) and its inverse,
  with the round trip of the transform stage followed by byte move-to-front.
- `src/mtf.rs`: move-to-front coding against an alphabet (each symbol is coded
  by its first index and then moved to the front) and its inverse, for any
  symbol type and for byte streams, with their round-trip laws.
- `src/header.rs`: the header of a compressed file, written and read back.
- `src/symbol.rs`, `src/lex.rs`, `src/perm.rs`, `src/counts.rs`: symbols and
  their keys, the lexicographic order, permutations, and key counts.
- `app/main.rs`: the command-line program (files, directories, prompts, and
  the ZWL and Huffman coders).
