//! Adaptive (PPM) and static Huffman coding of lower-case text, with the
//! bit-level helpers that pack codes into bytes and read them back.
pub mod huffman;
pub mod shannon_fano;
pub mod util;
