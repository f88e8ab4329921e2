//! A lossless byte-oriented compressor built on static Huffman coding.
//!
//! [`huffman`] holds the codec: it counts the bytes of an input, builds the
//! prefix-code tree of the counts, derives the code of each byte value, packs
//! the codes of the input into a stream of bytes, and reads such a stream
//! back. A compressed file holds the counts in its header, so that the tree can
//! be built again to decompress it. [`rle`] holds a run-length encoder.
//!
//! Every function is verified against its contract. The public proof functions
//! state what holds across functions: that decompression undoes compression,
//! that a header is read back as it was written, that no code is the beginning
//! of another, that the tree is optimal, and that a compressed stream is no
//! longer than its input.

pub mod huffman;
pub mod rle;
