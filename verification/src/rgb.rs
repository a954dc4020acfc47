//! Colorspace structure.
//!
//! Colors are carried as the IEEE-754 bit patterns of their three 32-bit
//! channel values; the interpolation and averaging arithmetic that
//! produces those bits happens outside the verified core. What is owned
//! here is the structure around the arithmetic: the color-map
//! specification (an ordered list of gradients plus a default color), the
//! compiled color map (a dense shade table), and the exact lookup rule
//! that sends an iteration count to a color.

use vstd::prelude::*;

use crate::EngineError;

verus! {

/// A color: red, green and blue channels as 32-bit IEEE-754 bit
/// patterns of values in `[0.0, 255.0]`. The engine stores and compares
/// the bits; it never does arithmetic on them.
#[derive(Debug, Copy, Clone, PartialEq, Eq, Structural)]
pub struct RGB {
    pub r: u32,
    pub g: u32,
    pub b: u32,
}

impl RGB {
    /// Pack three channel bit patterns into a color.
    pub fn new(newr: u32, newg: u32, newb: u32) -> (c: RGB)
        ensures
            c == (RGB { r: newr, g: newg, b: newb }),
    {
        RGB { r: newr, g: newg, b: newb }
    }

    /// All-zero channel bits: the color black (every channel is the bit
    /// pattern of `0.0`).
    pub fn black() -> (c: RGB)
        ensures
            c == (RGB { r: 0u32, g: 0u32, b: 0u32 }),
    {
        RGB { r: 0, g: 0, b: 0 }
    }
}

/// One linear gradient of a color map: a start color, an end color, and
/// the number of interpolation steps between them.
#[derive(Debug, Copy, Clone, PartialEq, Eq, Structural)]
pub struct GradientSpec {
    pub from: RGB,
    pub to: RGB,
    pub steps: usize,
}

impl GradientSpec {
    /// Build a gradient specification.
    pub fn new(from: RGB, to: RGB, steps: usize) -> (g: GradientSpec)
        ensures
            g == (GradientSpec { from, to, steps }),
    {
        GradientSpec { from, to, steps }
    }
}

/// The total step count of a gradient list: the sum of every gradient's
/// `steps`. This is the length the compiled color map must have, and it
/// doubles as the iteration limit handed to the engine.
pub open spec fn total_steps(s: Seq<GradientSpec>) -> nat
    decreases s.len(),
{
    if s.len() == 0 {
        0
    } else {
        total_steps(s.drop_last()) + s.last().steps as nat
    }
}

/// A prefix of a gradient list never has more total steps than the whole
/// list.
proof fn lemma_total_steps_prefix(s: Seq<GradientSpec>, i: int)
    requires
        0 <= i <= s.len(),
    ensures
        total_steps(s.subrange(0, i)) <= total_steps(s),
    decreases s.len() - i,
{
    if i < s.len() {
        lemma_total_steps_prefix(s, i + 1);
        assert(s.subrange(0, i + 1).drop_last() =~= s.subrange(0, i));
        assert(total_steps(s.subrange(0, i)) <= total_steps(s.subrange(0, i + 1)));
    } else {
        assert(s.subrange(0, i) =~= s);
    }
}

/// Extending a prefix by one gradient adds that gradient's steps.
proof fn lemma_total_steps_snoc(s: Seq<GradientSpec>, i: int)
    requires
        0 <= i < s.len(),
    ensures
        total_steps(s.subrange(0, i + 1)) == total_steps(s.subrange(0, i)) + s[i].steps,
{
    assert(s.subrange(0, i + 1).drop_last() =~= s.subrange(0, i));
    assert(s.subrange(0, i + 1).last() == s[i]);
}

/// A color-map specification: an ordered list of gradients and the
/// default color given to every count that falls beyond the compiled
/// table.
#[derive(Debug, Clone)]
pub struct ColorMapSpec {
    pub grads: Vec<GradientSpec>,
    pub default: RGB,
}

impl ColorMapSpec {
    /// A specification with no gradients and a black default.
    pub fn empty() -> (s: ColorMapSpec)
        ensures
            s.grads@ == Seq::<GradientSpec>::empty(),
            s.default == (RGB { r: 0u32, g: 0u32, b: 0u32 }),
    {
        ColorMapSpec { grads: Vec::new(), default: RGB::black() }
    }

    /// Build a specification from a gradient list and a default color.
    pub fn new(grads: Vec<GradientSpec>, default: RGB) -> (s: ColorMapSpec)
        ensures
            s.grads == grads,
            s.default == default,
    {
        ColorMapSpec { grads, default }
    }

    /// The total number of steps (and so of compiled shades) this
    /// specification calls for.
    pub fn len(&self) -> (n: usize)
        requires
            total_steps(self.grads@) <= usize::MAX,
        ensures
            n == total_steps(self.grads@),
    {
        let mut n: usize = 0;
        let mut i: usize = 0;
        while i < self.grads.len()
            invariant
                0 <= i <= self.grads@.len(),
                total_steps(self.grads@) <= usize::MAX,
                n == total_steps(self.grads@.subrange(0, i as int)),
            decreases self.grads@.len() - i,
        {
            proof {
                lemma_total_steps_snoc(self.grads@, i as int);
                lemma_total_steps_prefix(self.grads@, i + 1);
            }
            n = n + self.grads[i].steps;
            i = i + 1;
        }
        proof {
            assert(self.grads@.subrange(0, self.grads@.len() as int) =~= self.grads@);
        }
        n
    }
}

impl ColorMapSpec {
    /// The gradient a fresh insertion at position `at` gets: its colors
    /// are matched to the neighbours so the map stays continuous, and it
    /// starts with 256 steps.
    pub open spec fn inserted_gradient(self, at: int) -> GradientSpec {
        GradientSpec {
            from: if at == 0 {
                RGB { r: 0u32, g: 0u32, b: 0u32 }
            } else {
                self.grads@[at - 1].to
            },
            to: if at >= self.grads@.len() {
                self.default
            } else {
                self.grads@[at].from
            },
            steps: 256usize,
        }
    }

    /// Insert a new gradient at position `n` (or at the end, if `n` is
    /// past the end). The new gradient runs from the previous
    /// neighbour's end color (black at the front) to the next
    /// neighbour's start color (the default color at the back).
    pub fn insert_gradient(&mut self, n: usize)
        ensures
            ({
                let at: int = if n <= old(self).grads@.len() {
                    n as int
                } else {
                    old(self).grads@.len() as int
                };
                final(self).grads@ == old(self).grads@.insert(
                    at,
                    old(self).inserted_gradient(at),
                )
            }),
            final(self).default == old(self).default,
    {
        let len = self.grads.len();
        let at = if n <= len {
            n
        } else {
            len
        };
        let from = if at == 0 {
            RGB::black()
        } else {
            self.grads[at - 1].to
        };
        let to = if at >= len {
            self.default
        } else {
            self.grads[at].from
        };
        self.grads.insert(at, GradientSpec { from, to, steps: 256 });
    }

    /// Append a new gradient, colored to continue the last one.
    pub fn append_gradient(&mut self)
        ensures
            final(self).grads@ == old(self).grads@.push(
                old(self).inserted_gradient(old(self).grads@.len() as int),
            ),
            final(self).default == old(self).default,
    {
        let len = self.grads.len();
        self.insert_gradient(len);
        proof {
            assert(final(self).grads@ =~= old(self).grads@.push(
                old(self).inserted_gradient(old(self).grads@.len() as int),
            ));
        }
    }

    /// Remove the gradient at position `n`, if there is one; do nothing
    /// otherwise.
    pub fn remove_gradient(&mut self, n: usize)
        ensures
            n < old(self).grads@.len() ==> final(self).grads@ == old(self).grads@.remove(
                n as int,
            ),
            n >= old(self).grads@.len() ==> final(self).grads@ == old(self).grads@,
            final(self).default == old(self).default,
    {
        if n < self.grads.len() {
            self.grads.remove(n);
        }
    }

    /// Remove every gradient.
    pub fn clear_gradients(&mut self)
        ensures
            final(self).grads@ == Seq::<GradientSpec>::empty(),
            final(self).default == old(self).default,
    {
        self.grads.clear();
    }
}

impl PartialEq for ColorMapSpec {
    /// Structural equality: same gradients in the same order, same
    /// default color. This is how a caller detects that a color request
    /// changed and the map must be recompiled.
    fn eq(&self, other: &ColorMapSpec) -> (r: bool) {
        if self.default != other.default {
            return false;
        }
        if self.grads.len() != other.grads.len() {
            return false;
        }
        let mut i: usize = 0;
        while i < self.grads.len()
            invariant
                0 <= i <= self.grads@.len(),
                self.grads@.len() == other.grads@.len(),
                self.default == other.default,
                forall|j: int| 0 <= j < i ==> self.grads@[j] == other.grads@[j],
            decreases self.grads@.len() - i,
        {
            if self.grads[i] != other.grads[i] {
                return false;
            }
            i = i + 1;
        }
        proof {
            assert(self.grads@ =~= other.grads@);
        }
        true
    }
}

impl vstd::std_specs::cmp::PartialEqSpecImpl for ColorMapSpec {
    open spec fn obeys_eq_spec() -> bool {
        true
    }

    open spec fn eq_spec(&self, other: &ColorMapSpec) -> bool {
        self.grads@ == other.grads@ && self.default == other.default
    }
}

/// A compiled color map: a dense table mapping an iteration count to the
/// shade for it, plus the default color for every count past the table.
pub struct ColorMap {
    data: Vec<RGB>,
    default: RGB,
}

impl ColorMap {
    /// The shade table as a sequence.
    pub closed spec fn data_spec(self) -> Seq<RGB> {
        self.data@
    }

    /// The default color.
    pub closed spec fn default_spec(self) -> RGB {
        self.default
    }

    /// What `get` returns: the `n`th table entry, or the default color
    /// for any `n` at or past the table's end.
    pub open spec fn get_spec(self, n: int) -> RGB {
        if 0 <= n < self.data_spec().len() {
            self.data_spec()[n]
        } else {
            self.default_spec()
        }
    }

    /// Assemble a color map from a specification and the shade table
    /// interpolated for it. Succeeds exactly when the table's length is
    /// the specification's total step count; the arithmetic that fills
    /// the table is the caller's, its length and order are checked here.
    pub fn make(spec: &ColorMapSpec, shades: Vec<RGB>) -> (r: Result<ColorMap, EngineError>)
        ensures
            match r {
                Ok(m) => {
                    &&& shades@.len() == total_steps(spec.grads@)
                    &&& m.data_spec() == shades@
                    &&& m.default_spec() == spec.default
                },
                Err(e) => {
                    &&& shades@.len() != total_steps(spec.grads@)
                    &&& e == EngineError::BadShadeCount
                },
            },
    {
        let mut remaining: usize = shades.len();
        let mut i: usize = 0;
        while i < spec.grads.len()
            invariant
                0 <= i <= spec.grads@.len(),
                total_steps(spec.grads@.subrange(0, i as int)) + remaining == shades@.len(),
            decreases spec.grads@.len() - i,
        {
            let step = spec.grads[i].steps;
            proof {
                lemma_total_steps_snoc(spec.grads@, i as int);
            }
            if step > remaining {
                proof {
                    lemma_total_steps_prefix(spec.grads@, i + 1);
                }
                return Err(EngineError::BadShadeCount);
            }
            remaining = remaining - step;
            i = i + 1;
        }
        proof {
            assert(spec.grads@.subrange(0, spec.grads@.len() as int) =~= spec.grads@);
        }
        if remaining != 0 {
            return Err(EngineError::BadShadeCount);
        }
        Ok(ColorMap { data: shades, default: spec.default })
    }

    /// The `n`th color of the map, or the default color if the table is
    /// not that long.
    pub fn get(&self, n: usize) -> (c: RGB)
        ensures
            c == self.get_spec(n as int),
    {
        if n < self.data.len() {
            self.data[n]
        } else {
            self.default
        }
    }

    /// The number of shades in the table.
    pub fn len(&self) -> (n: usize)
        ensures
            n == self.data_spec().len(),
    {
        self.data.len()
    }
}

/// The largest downsampling factor the image pipeline supports; a
/// scratch buffer of `MAX_SCALE * MAX_SCALE` pixels is always enough for
/// one block.
pub const MAX_SCALE: usize = 5;

/// The downsampling factor actually used for a requested scale: below
/// 2 means full resolution, and nothing above `MAX_SCALE` is allowed.
pub fn clamp_scale(scale: usize) -> (k: usize)
    ensures
        k == if scale < 2 {
            1usize
        } else if scale > MAX_SCALE {
            MAX_SCALE
        } else {
            scale
        },
        1 <= k <= MAX_SCALE,
{
    if scale < 2 {
        1
    } else if scale > MAX_SCALE {
        MAX_SCALE
    } else {
        scale
    }
}

/// An image whose pixels are `RGB` values (carried, as everywhere here,
/// as channel bit patterns), row-major, with its dimensions.
pub struct FImageData {
    w: usize,
    h: usize,
    data: Vec<RGB>,
}

impl FImageData {
    /// The pixel width.
    pub closed spec fn w_spec(self) -> usize {
        self.w
    }

    /// The pixel height.
    pub closed spec fn h_spec(self) -> usize {
        self.h
    }

    /// The pixels, row-major.
    pub closed spec fn pixels_spec(self) -> Seq<RGB> {
        self.data@
    }

    /// A well-formed image holds exactly one pixel per grid cell.
    pub open spec fn wf(self) -> bool {
        self.pixels_spec().len() == self.w_spec() * self.h_spec()
    }

    /// Wrap a row-major pixel vector and its dimensions.
    pub fn new(width: usize, height: usize, dat: Vec<RGB>) -> (img: FImageData)
        requires
            dat@.len() == width * height,
        ensures
            img.wf(),
            img.w_spec() == width,
            img.h_spec() == height,
            img.pixels_spec() == dat@,
    {
        FImageData { w: width, h: height, data: dat }
    }

    /// The pixel width.
    pub fn width(&self) -> (r: usize)
        ensures
            r == self.w_spec(),
    {
        self.w
    }

    /// The pixel height.
    pub fn height(&self) -> (r: usize)
        ensures
            r == self.h_spec(),
    {
        self.h
    }

    /// Borrow the pixels.
    pub fn pixels(&self) -> (r: &Vec<RGB>)
        ensures
            r@ == self.pixels_spec(),
    {
        &self.data
    }

    /// Give up the pixels.
    pub fn to_data(self) -> (r: Vec<RGB>)
        ensures
            r@ == self.pixels_spec(),
    {
        self.data
    }

    /// The dimensions of the image downsampled by `k`: integer division,
    /// so trailing rows and columns that do not fill a block are
    /// dropped.
    pub fn scaled_dims(&self, k: usize) -> (r: (usize, usize))
        requires
            k >= 1,
        ensures
            r.0 == self.w_spec() as int / k as int,
            r.1 == self.h_spec() as int / k as int,
    {
        (self.w / k, self.h / k)
    }

    /// Collect the `k * k` block of source pixels behind the scaled
    /// pixel `(xi, yi)` into `buf`, row-major. `buf` is a caller-owned
    /// scratch buffer, reused so block traversal allocates nothing per
    /// pixel.
    pub fn gather_block(&self, xi: usize, yi: usize, k: usize, buf: &mut Vec<RGB>)
        requires
            self.wf(),
            1 <= k,
            xi < self.w_spec() as int / k as int,
            yi < self.h_spec() as int / k as int,
        ensures
            final(buf)@.len() == k * k,
            forall|i: int|
                0 <= i < k * k ==> #[trigger] final(buf)@[i] == self.pixels_spec()[(yi * k + i
                    / k as int) * self.w_spec() + (xi * k + i % k as int)],
    {
        proof {
            assert((yi + 1) * k <= self.h_spec() && (xi + 1) * k <= self.w_spec())
                by (nonlinear_arith)
                requires
                    1 <= k,
                    xi < self.w_spec() as int / k as int,
                    yi < self.h_spec() as int / k as int,
            ;
        }
        let total = self.data.len();
        buf.clear();
        let mut dy: usize = 0;
        while dy < k
            invariant
                self.wf(),
                1 <= k,
                0 <= dy <= k,
                (yi + 1) * k <= self.h_spec(),
                (xi + 1) * k <= self.w_spec(),
                self.w_spec() * self.h_spec() <= usize::MAX,
                buf@.len() == dy * k,
                dy * k <= k * k,
                forall|i: int|
                    0 <= i < buf@.len() ==> #[trigger] buf@[i] == self.pixels_spec()[(yi * k + i
                        / k as int) * self.w_spec() + (xi * k + i % k as int)],
            decreases k - dy,
        {
            let mut dx: usize = 0;
            while dx < k
                invariant
                    self.wf(),
                    1 <= k,
                    0 <= dy < k,
                    0 <= dx <= k,
                    (yi + 1) * k <= self.h_spec(),
                    (xi + 1) * k <= self.w_spec(),
                    self.w_spec() * self.h_spec() <= usize::MAX,
                    buf@.len() == dy * k + dx,
                    forall|i: int|
                        0 <= i < buf@.len() ==> #[trigger] buf@[i] == self.pixels_spec()[(yi * k
                            + i / k as int) * self.w_spec() + (xi * k + i % k as int)],
                decreases k - dx,
            {
                proof {
                    assert(yi * k + dy < self.h_spec() && xi * k + dx < self.w_spec())
                        by (nonlinear_arith)
                        requires
                            1 <= k,
                            0 <= dy < k,
                            0 <= dx < k,
                            (yi + 1) * k <= self.h_spec(),
                            (xi + 1) * k <= self.w_spec(),
                    ;
                    assert((yi * k + dy) * self.w_spec() + (xi * k + dx) < self.w_spec()
                        * self.h_spec()) by (nonlinear_arith)
                        requires
                            yi * k + dy < self.h_spec(),
                            xi * k + dx < self.w_spec(),
                    ;
                    assert((dy * k + dx) / k as int == dy && (dy * k + dx) % k as int == dx)
                        by (nonlinear_arith)
                        requires
                            1 <= k,
                            0 <= dx < k,
                            0 <= dy,
                    ;
                }
                let row: usize = yi * k + dy;
                let col: usize = xi * k + dx;
                let idx: usize = row * self.w + col;
                buf.push(self.data[idx]);
                dx = dx + 1;
            }
            proof {
                assert((dy + 1) * k == dy * k + k) by (nonlinear_arith);
            }
            dy = dy + 1;
            proof {
                assert(dy * k <= k * k) by (nonlinear_arith)
                    requires
                        0 <= dy <= k,
                ;
            }
        }
    }
}

} // verus!
