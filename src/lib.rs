//! An updatable threshold escrow: a running total kept as encrypted powers of
//! its distance to a committed threshold, updated homomorphically, and tested
//! against the threshold by the holder of the secret key.

pub mod field;
pub mod group;
pub mod combin;
pub mod primitives;
pub mod ublu;
