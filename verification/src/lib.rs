//! Statistical cryptanalysis of XOR ciphers.
//!
//! The crate recovers repeating-key XOR keys without knowledge of the key:
//! it scores candidate plaintexts against a byte-frequency model, finds the
//! best single-byte key for a ciphertext by exhaustive search over a charset,
//! estimates the length of a repeating key by normalized pairwise Hamming
//! distance over sampled chunks, and recovers the full key by transposing the
//! ciphertext into per-position columns and solving each column as an
//! independent single-byte problem.
//!
//! All scores and distances are exact rationals (integer numerator and
//! denominator), so comparisons and tie-breaks are deterministic and
//! reproducible.

pub mod breaker;
pub mod hamming;
pub mod keysize;
pub mod model;
pub mod rational;
pub mod xor_cipher;
