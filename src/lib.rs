//! A keystream derived from a seed through a binary hash tree, and the XOR
//! stream cipher that consumes it.
pub mod cipher;
pub mod tree;
pub mod xor_reader;
