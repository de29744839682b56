//! A small cryptographic service: keyed transforms (hash, reversal, block
//! cipher), Shamir secret sharing over the P-256 scalar field with a
//! multi-party XOR aggregate, and the pipe-delimited command protocol that
//! drives them.
pub mod encoding;
pub mod secret_sharing;
pub mod mpc;
pub mod hash_and_reverse;
pub mod aes;
pub mod protocol;
