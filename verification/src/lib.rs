//! Statistical identification of classical ciphers.
//!
//! The crate encodes a ciphertext into a canonical 38-symbol alphabet,
//! computes a vector of statistical fingerprints over the encoded stream,
//! and ranks known cipher families by their distance to that fingerprint.
//! All statistics are computed in exact integer arithmetic: ratio-valued
//! measures are reported in thousandths of their conventional unit.

use vstd::prelude::*;

pub mod all_stats;
pub mod analyzer;
pub mod benchmark;
pub mod binary_random;
pub mod classify;
pub mod counts;
pub mod digraphs;
pub mod ioc;
pub mod laws;
pub mod ldi;
pub mod lr;
pub mod mic;
pub mod mka;
pub mod models;
pub mod ranking;
pub mod rod;
pub mod sdd;
pub mod utils;

verus! {

/// Size of the cipher symbol alphabet: `A`-`Z`, `#`, `0`-`9`.
pub const ALPHABET_SIZE: usize = 38;

} // verus!
