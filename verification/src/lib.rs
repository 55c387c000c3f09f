//! Exact arithmetic for the secp256k1 prime field and the elliptic-curve
//! group built on it: a low-level primitive layer for higher protocols.
//!
//! The double-and-add loops used for field and scalar multiplication run a
//! fixed 256 iterations but branch on each multiplier bit, so their timing is
//! operand-dependent; this layer is not constant-time.

pub mod u256;
pub mod params;
mod modinv;
pub mod field;
pub mod point;
