//! A succinct wavelet-tree index over sequences of fixed-width unsigned integers.
//!
//! - `bitarray`: packed MSB-first bit sequences and their file form.
//! - `bitindex`: rank and select over a bit array, with per-word and per-super-block tables.
//! - `logarray`: fixed-width integer sequences with a trailing count and width.
//! - `wavelettree`: construction of the layered bits, symbol access and occurrence lookup.
//! - `correctness`: proofs that a built tree decodes to, and finds, what it was built from.
//! - `convert`: width-safe integer conversions.
pub mod bitarray;
pub mod bitindex;
pub mod convert;
pub mod correctness;
pub mod logarray;
pub mod wavelettree;
