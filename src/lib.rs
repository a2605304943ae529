//! An in-memory approximate nearest-neighbor index built on locality-sensitive
//! hashing.
//!
//! Vectors are held as the IEEE-754 single-precision bit patterns of their
//! coordinates (`f32::to_bits`), so that every decision the index takes on them
//! (equality, ordering of distances, hash bits) is stated and proved over plain
//! integers.
pub mod float_bits;
pub mod hash_code;
pub mod error;
pub mod vectors;
pub mod table;
pub mod select;
pub mod sample;
