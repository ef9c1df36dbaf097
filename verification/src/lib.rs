//! Packed-bit buffers and the LZW and Huffman codecs built on them.
//!
//! `bits` holds the bit buffer, `bytes` its conversion to and from bytes.
//! `counter` and `numeral` hold the code counter and the binary numerals that
//! `lzw` writes and reads. `huffman` holds the Huffman coder, `prefix` the
//! properties of its code trees, and `roundtrip` states what decoding gives
//! back of what encoding wrote.
pub mod bits;
pub mod bytes;
pub mod counter;
pub mod huffman;
pub mod lzw;
pub mod numeral;
pub mod prefix;
pub mod roundtrip;
