//! Shared pieces: binary digits, code trees, symbol tokens and text cleaning.
pub mod binary_tree;
pub mod bits;
pub mod token;
pub mod io;
pub mod buffer;
