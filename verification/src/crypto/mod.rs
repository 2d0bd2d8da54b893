//! Hashing of messages and the hex form of hashes.

pub mod hash;
