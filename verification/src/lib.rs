//! Core engine of an escape-time fractal renderer.
//!
//! The library owns the logic of the renderer: how a pixel grid is split
//! into row chunks for parallel iteration, how finished chunks are stitched
//! back into an iteration map, how a map is incrementally extended to a
//! higher iteration limit, how a color-map specification is compiled and
//! looked up, and how a floating-point image is laid out and downsampled.
//!
//! Floating-point arithmetic itself (complex iteration, color
//! interpolation, box averaging) cannot be verified here; those kernels
//! live with the caller. The engine carries every floating-point quantity
//! opaquely, as its IEEE-754 bit pattern, and states its contracts over
//! the integer structure that surrounds the arithmetic.

use vstd::prelude::*;

pub mod cx;
pub mod img;
pub mod iter;
pub mod rgb;
pub mod rw;

verus! {

/// What can go wrong when externally computed data is handed back to the
/// engine for assembly. Pure arithmetic never fails; these errors only
/// arise when a caller delivers material that does not fit the structure
/// it was asked for.
#[derive(Debug, Clone, Copy, PartialEq, Eq, Structural)]
pub enum EngineError {
    /// A chunk set does not tile the pixel grid exactly, a chunk's data
    /// length does not match its row count, or a stored count exceeds
    /// the iteration limit.
    BadChunks,
    /// A shade table's length does not equal the specification's total
    /// step count.
    BadShadeCount,
    /// A batch of freshly iterated counts does not match the set of
    /// pixels that were due for re-iteration.
    BadFreshCounts,
}

} // verus!

