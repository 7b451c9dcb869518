//! Masked Authenticated Messaging over balanced-ternary trits.
//!
//! A publisher signs each message with a one-time key whose address is a leaf
//! of a Merkle tree, binds the root of the next tree into the plaintext, and
//! masks the result under a key derived from the current root and index.
pub mod auth;
pub mod iss;
pub mod mam;
pub mod mask;
pub mod merkle;
pub mod pascal;
pub mod primitives;
pub mod sponge;
pub mod trits;
