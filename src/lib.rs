//! Exhaustive key search for a fixed-length Vigenère-style cipher.
//!
//! The library enumerates every candidate key of a given length, decrypts a
//! ciphertext with each one, and accepts a key when the leading word of the
//! decryption is a dictionary member.
pub mod cipher;
pub mod crack;
pub mod dictionary;
pub mod keyspace;
