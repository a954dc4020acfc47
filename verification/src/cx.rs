//! A complex-number carrier.
//!
//! `Cx` holds the two 64-bit components of a complex number as IEEE-754
//! bit patterns. The engine never interprets the numeric value of the
//! bits: they are produced and consumed by the arithmetic kernels outside
//! the verified core, and the engine only stores, copies and compares
//! them. Comparison is bitwise, which is exactly the structural equality
//! the engine needs to decide whether two iteration rules are the same.

use vstd::prelude::*;

verus! {

/// A complex value: real and imaginary components as 64-bit IEEE-754
/// bit patterns.
#[derive(Debug, Copy, Clone, PartialEq, Eq, Structural)]
pub struct Cx {
    pub re: u64,
    pub im: u64,
}

impl Cx {
    /// Construct from the two component bit patterns (rectangular form).
    pub fn rect(x: u64, y: u64) -> (r: Cx)
        ensures
            r.re == x,
            r.im == y,
    {
        Cx { re: x, im: y }
    }
}

} // verus!
