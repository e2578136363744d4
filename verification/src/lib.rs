//! Reverse the bits of an unsigned word inside a caller-chosen bit range,
//! leaving every bit outside the range untouched.
//!
//! Two structurally identical modules cover the two supported word widths.
//! Each offers a range normalizer that turns any range description into a
//! canonical closed interval, a simple reference reverser built on an
//! explicit bit array, and a constant-time fast reverser built on masks,
//! shifts and the whole-word bit reverse.

pub mod bounds;
pub mod word32;
pub mod word64;
