//! Decoder for the tagged, length-prefixed binary tree format (NBT): a byte
//! buffer becomes a generic tree of integers, floats, text, sequences and
//! named-field mappings. Every reader reports exactly how many bytes it
//! consumed, and every fault is returned as a `DecodeError`.
pub mod tree;
pub mod wire;
pub mod primitive;
pub mod decode;
pub mod laws;
pub mod encoding;
