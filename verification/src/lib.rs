//! Check-digit codes over the ring of residues modulo a small prime.
//!
//! The heart of the crate is a (10,6) code over residues modulo 11: four
//! check digits are derived from a six-digit payload, and a received
//! ten-digit word can be corrected in up to two positions by solving a
//! quadratic over the field of eleven elements.  Around it stand a small
//! modular-arithmetic toolkit and a few unrelated checksum utilities
//! (ISBN, credit-card numbers), a SHA-1 front end, a brute-force password
//! search, and a zero-width-character steganography helper.


pub mod arith;
pub mod digits;
pub mod bch;
pub mod coding;
pub mod cpu;
pub mod credit;
pub mod decode;
pub mod hamming;
pub mod hash;
pub mod isbn;
pub mod laws;
pub mod modular;
pub mod sha_cracker;
pub mod steg;
