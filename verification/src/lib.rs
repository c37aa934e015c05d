//! Huffman coding of bytes over a fixed frequency table, and the integer
//! parts of a block-based frame codec: run-length coding of quantized
//! coefficients and command-line option handling.
pub mod huffman_tree;
pub mod huffman_code;
pub mod huffman_encoder;
pub mod huffman_decoder;
pub mod rle;
pub mod text;
pub mod options;
pub mod frame;
pub mod prompt;
pub mod huffman_depth;
pub mod huffman_balance;
