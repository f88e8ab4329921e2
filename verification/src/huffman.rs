//! The Huffman codec: frequency analysis, tree construction, code tables,
//! bit packing, decoding and the header format of a compressed file.

pub mod bits;
pub mod codes;
pub mod decode;
pub mod encode;
pub mod error;
pub mod frequency;
pub mod header;
pub mod optimal;
pub mod roundtrip;
pub mod size;
pub mod tree;

pub use codes::generate_codes;
pub use decode::decode;
pub use encode::compress;
pub use error::HuffmanError;
pub use frequency::get_freq;
pub use header::{read_header, write_compressed};
pub use tree::{build_binary_tree, Node, NodeKind};
