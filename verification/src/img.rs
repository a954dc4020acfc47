//! Image parameters and the recompute decision.
//!
//! `ImageParams` describes the pixel grid and the rectangle of the
//! plane it shows: pixel dimensions as integers, the upper-left corner
//! and the plane width as 64-bit IEEE-754 bit patterns. The navigation
//! arithmetic on those bits (zoom, recenter, resize) happens outside
//! the verified core; what is owned here is the record itself, its
//! default, the minimum-size rule for dimensions, and the decision of
//! how much recomputation a parameter change requires.

use vstd::prelude::*;

use crate::iter::IterParams;
use crate::rgb::ColorMapSpec;

verus! {

/// Bit pattern of the default upper-left corner's real part, -2.0.
pub const DEFAULT_X_BITS: u64 = 0xC000_0000_0000_0000;

/// Bit pattern of the default upper-left corner's imaginary part, 1.0.
pub const DEFAULT_Y_BITS: u64 = 0x3FF0_0000_0000_0000;

/// Bit pattern of the default plane width, 3.0.
pub const DEFAULT_WIDTH_BITS: u64 = 0x4008_0000_0000_0000;

/// No image dimension may be smaller than this.
pub const MIN_IMAGE_DIMENSION: usize = 16;

/// The pixel grid and the plane rectangle it displays: `xpix * ypix`
/// pixels, the upper-left corner at `(x, y)` and the rectangle `width`
/// wide in plane coordinates (the three carried as 64-bit IEEE-754 bit
/// patterns). The rectangle's height is never stored: it is derived
/// from the width and the pixel aspect ratio wherever it is needed, so
/// it cannot drift.
#[derive(Debug, Clone, Copy, PartialEq, Eq, Structural)]
pub struct ImageParams {
    pub xpix: usize,
    pub ypix: usize,
    pub x: u64,
    pub y: u64,
    pub width: u64,
}

impl Default for ImageParams {
    /// The traditional whole-set view: 800 by 600 pixels of the
    /// rectangle from -2.0 + 1.0i, 3.0 wide.
    fn default() -> (d: Self)
        ensures
            d == (ImageParams {
                xpix: 800usize,
                ypix: 600usize,
                x: DEFAULT_X_BITS,
                y: DEFAULT_Y_BITS,
                width: DEFAULT_WIDTH_BITS,
            }),
    {
        ImageParams {
            xpix: 800,
            ypix: 600,
            x: DEFAULT_X_BITS,
            y: DEFAULT_Y_BITS,
            width: DEFAULT_WIDTH_BITS,
        }
    }
}

/// Are these pixel dimensions large enough to render? Anything below
/// the minimum is rejected before any computation is attempted.
pub fn dims_ok(xpix: usize, ypix: usize) -> (r: bool)
    ensures
        r == (xpix >= MIN_IMAGE_DIMENSION && ypix >= MIN_IMAGE_DIMENSION),
{
    xpix >= MIN_IMAGE_DIMENSION && ypix >= MIN_IMAGE_DIMENSION
}

/// How much work a parameter change requires: recompute the iteration
/// map from scratch, extend it by re-iteration, and/or recolor it.
#[derive(Debug, Clone, Copy, PartialEq, Eq, Structural)]
pub struct RefreshPlan {
    pub recompute: bool,
    pub reiterate: bool,
    pub recolor: bool,
}

/// Decide how much recomputation a change of parameters requires. A
/// changed view or iteration rule forces a fresh map. A changed color
/// specification alone recolors, and re-iterates first exactly when the
/// new color map is longer than the old one (deeper counts are needed);
/// a shorter or equal map needs no new counts, out-of-range counts
/// simply fall to the default color.
pub fn refresh_actions(
    cur_dims: &ImageParams,
    new_dims: &ImageParams,
    cur_iter: &IterParams,
    new_iter: &IterParams,
    cur_spec: &ColorMapSpec,
    new_spec: &ColorMapSpec,
    cur_map_len: usize,
    new_map_len: usize,
) -> (p: RefreshPlan)
    ensures
        p.recompute == !(cur_dims == new_dims && cur_iter.eq_spec_rule(new_iter)),
        p.reiterate == (!p.recompute && !(cur_spec.grads@ == new_spec.grads@ && cur_spec.default
            == new_spec.default) && new_map_len > cur_map_len),
        p.recolor == (p.recompute || p.reiterate || !(cur_spec.grads@ == new_spec.grads@
            && cur_spec.default == new_spec.default)),
{
    let dims_same = *cur_dims == *new_dims;
    let iter_same = *cur_iter == *new_iter;
    let spec_same = *cur_spec == *new_spec;
    let recompute = !dims_same || !iter_same;
    let reiterate = !recompute && !spec_same && new_map_len > cur_map_len;
    let recolor = recompute || reiterate || !spec_same;
    RefreshPlan { recompute, reiterate, recolor }
}

} // verus!
