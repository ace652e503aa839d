//! The parts of Nail's standard library that compute on plain values.

pub mod bits;
pub mod binary;
pub mod base32;
pub mod radix;
pub mod base58;
pub mod base64;
pub mod boolean;
pub mod color;
pub mod cache;
pub mod rank;
pub mod array;
pub mod array_functional;
pub mod args;
pub mod compress;
pub mod archive;
