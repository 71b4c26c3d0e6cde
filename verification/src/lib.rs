//! Threshold secret sharing over a prime field.
//!
//! A secret is hidden as the constant term of a random polynomial; any
//! `threshold` of the issued shares recover it by Lagrange interpolation
//! at zero, while fewer reveal nothing.  The `sss` module implements plain
//! Shamir secret sharing over a fixed prime field; the `vss` module adds
//! Feldman's discrete-log commitments, which let a holder check a share
//! against the dealer's committed polynomial.

pub mod field;
pub mod lagrange;
pub mod poly;
mod rng;
pub mod sss;
pub mod vss;
