//! Decoder for CBV archives: container parsing, Huffman and LZSS block
//! decoding, and DES decryption of password-protected archives.

pub mod archive;
pub mod bits;
pub mod cbv;
pub mod cli;
pub mod decrypt;
pub mod error;
pub mod filename;
pub mod lzss;
pub mod table;
pub mod trie;
