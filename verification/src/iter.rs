//! The iteration engine's structure.
//!
//! Iterating a single point is floating-point arithmetic and happens
//! outside the verified core; everything around it is owned here: how the
//! pixel grid is split into row chunks, the bounded-dispatch discipline
//! that keeps at most a worker-count of chunks in flight, how finished
//! chunks are stitched back into an iteration map in row order whatever
//! order they completed in, and which pixels a re-iteration to a higher
//! limit may touch.

use vstd::arithmetic::div_mod::lemma_fundamental_div_mod;
use vstd::prelude::*;

use crate::cx::Cx;
use crate::rgb::ColorMap;
use crate::rgb::FImageData;

verus! {

/// A full description of the iteration rule for a point. Combined with
/// an iteration limit (the length of the target color map) this is all
/// the information needed to iterate a point.
#[derive(Debug, Clone)]
pub enum IterParams {
    /// Iterate `z * z + c` from zero.
    Mandlebrot,
    /// Iterate `a * z * z + b * c` from zero.
    PseudoMandlebrot(Cx, Cx),
    /// Iterate the polynomial with these coefficients (constant term
    /// first), starting from the point itself.
    Polynomial(Vec<Cx>),
}

impl IterParams {
    /// Structural equality on rules: same variant, same parameter bits.
    /// This is what decides whether an old iteration map may be extended
    /// by re-iteration or must be recomputed.
    pub open spec fn eq_spec_rule(&self, other: &IterParams) -> bool {
        match (self, other) {
            (IterParams::Mandlebrot, IterParams::Mandlebrot) => true,
            (IterParams::PseudoMandlebrot(a1, b1), IterParams::PseudoMandlebrot(a2, b2)) => a1
                == a2 && b1 == b2,
            (IterParams::Polynomial(v1), IterParams::Polynomial(v2)) => v1@ == v2@,
            _ => false,
        }
    }
}

/// Element-wise comparison of two coefficient vectors.
fn coef_vecs_eq(v1: &Vec<Cx>, v2: &Vec<Cx>) -> (r: bool)
    ensures
        r == (v1@ == v2@),
{
    if v1.len() != v2.len() {
        return false;
    }
    let mut i: usize = 0;
    while i < v1.len()
        invariant
            0 <= i <= v1@.len(),
            v1@.len() == v2@.len(),
            forall|j: int| 0 <= j < i ==> v1@[j] == v2@[j],
        decreases v1@.len() - i,
    {
        if v1[i] != v2[i] {
            return false;
        }
        i = i + 1;
    }
    proof {
        assert(v1@ =~= v2@);
    }
    true
}

impl PartialEq for IterParams {
    fn eq(&self, other: &IterParams) -> (r: bool) {
        match (self, other) {
            (IterParams::Mandlebrot, IterParams::Mandlebrot) => true,
            (IterParams::PseudoMandlebrot(a1, b1), IterParams::PseudoMandlebrot(a2, b2)) => *a1
                == *a2 && *b1 == *b2,
            (IterParams::Polynomial(v1), IterParams::Polynomial(v2)) => coef_vecs_eq(v1, v2),
            _ => false,
        }
    }
}

impl vstd::std_specs::cmp::PartialEqSpecImpl for IterParams {
    open spec fn obeys_eq_spec() -> bool {
        true
    }

    open spec fn eq_spec(&self, other: &IterParams) -> bool {
        self.eq_spec_rule(other)
    }
}

/// One unit of parallel work: a contiguous range of pixel rows, waiting
/// to be iterated.
#[derive(Debug, Clone, Copy, PartialEq, Eq, Structural)]
pub struct ChunkRecipe {
    pub y_start: usize,
    pub n_rows: usize,
}

/// `sp` is a gap-free, overlap-free cover of the rows `[start, end)`:
/// each span begins where the previous one stopped, every span is
/// non-empty, and the last one stops exactly at `end`.
pub open spec fn spans_partition(sp: Seq<(usize, usize)>, start: nat, end: nat) -> bool
    decreases sp.len(),
{
    if sp.len() == 0 {
        start == end
    } else {
        &&& sp[0].0 == start
        &&& sp[0].1 >= 1
        &&& spans_partition(sp.drop_first(), (start + sp[0].1) as nat, end)
    }
}

/// The row spans of a recipe list.
pub open spec fn recipe_spans(s: Seq<ChunkRecipe>) -> Seq<(usize, usize)> {
    s.map_values(|c: ChunkRecipe| (c.y_start, c.n_rows))
}

/// A partition stays one when a span starting at its old end is
/// appended.
proof fn lemma_spans_push(sp: Seq<(usize, usize)>, start: nat, end: nat, c: (usize, usize))
    requires
        spans_partition(sp, start, end),
        c.0 == end,
        c.1 >= 1,
    ensures
        spans_partition(sp.push(c), start, (end + c.1) as nat),
    decreases sp.len(),
{
    if sp.len() == 0 {
        assert(sp.push(c)[0] == c);
        assert(sp.push(c).drop_first() =~= Seq::<(usize, usize)>::empty());
        assert(spans_partition(sp.push(c).drop_first(), (start + c.1) as nat, (end + c.1) as nat));
    } else {
        lemma_spans_push(sp.drop_first(), (start + sp[0].1) as nat, end, c);
        assert(sp.push(c)[0] == sp[0]);
        assert(sp.push(c).drop_first() =~= sp.drop_first().push(c));
    }
}

/// Split `ypix` rows into chunks for `n_threads` workers: twice the
/// worker count of equal-height chunks, with any remainder rows forming
/// one final, shorter chunk. When there are fewer rows than twice the
/// worker count, the whole grid is one chunk.
pub fn plan_chunks(ypix: usize, n_threads: usize) -> (r: Vec<ChunkRecipe>)
    requires
        1 <= ypix,
        1 <= n_threads,
        n_threads <= usize::MAX / 2,
    ensures
        spans_partition(recipe_spans(r@), 0, ypix as nat),
        ({
            let t2 = 2 * n_threads;
            let ch = ypix as int / t2 as int;
            let rem = ypix as int % t2 as int;
            if ch == 0 {
                r@ =~= seq![ChunkRecipe { y_start: 0usize, n_rows: ypix }]
            } else {
                &&& r@.len() == if rem == 0 {
                    t2 as int
                } else {
                    t2 + 1
                }
                &&& forall|i: int|
                    0 <= i < t2 ==> #[trigger] r@[i] == (ChunkRecipe {
                        y_start: (i * ch) as usize,
                        n_rows: ch as usize,
                    })
                &&& rem != 0 ==> r@[t2 as int] == (ChunkRecipe {
                    y_start: (t2 * ch) as usize,
                    n_rows: rem as usize,
                })
            }
        }),
{
    let t2: usize = 2 * n_threads;
    let ch: usize = ypix / t2;
    let rem: usize = ypix % t2;
    proof {
        lemma_fundamental_div_mod(ypix as int, t2 as int);
    }
    let mut r: Vec<ChunkRecipe> = Vec::new();
    if ch == 0 {
        r.push(ChunkRecipe { y_start: 0, n_rows: ypix });
        proof {
            assert(recipe_spans(r@).len() == 1);
            assert(recipe_spans(r@)[0] == (0usize, ypix));
            assert(recipe_spans(r@).drop_first() =~= Seq::<(usize, usize)>::empty());
            assert(spans_partition(recipe_spans(r@).drop_first(), ypix as nat, ypix as nat));
        }
        return r;
    }
    let mut start_y: usize = 0;
    let mut i: usize = 0;
    while i < t2
        invariant
            1 <= ch,
            ch == ypix as int / t2 as int,
            rem == ypix as int % t2 as int,
            t2 * ch + rem == ypix,
            0 <= i <= t2,
            start_y == i * ch,
            r@.len() == i,
            spans_partition(recipe_spans(r@), 0, start_y as nat),
            forall|j: int|
                0 <= j < i ==> #[trigger] r@[j] == (ChunkRecipe {
                    y_start: (j * ch) as usize,
                    n_rows: ch,
                }),
        decreases t2 - i,
    {
        proof {
            assert((i + 1) * ch == i * ch + ch) by (nonlinear_arith);
            assert(i * ch + ch <= t2 * ch) by (nonlinear_arith)
                requires
                    0 <= i < t2,
                    1 <= ch,
            ;
            lemma_spans_push(
                recipe_spans(r@),
                0,
                start_y as nat,
                (start_y, ch),
            );
            assert(recipe_spans(r@.push(ChunkRecipe { y_start: start_y, n_rows: ch }))
                =~= recipe_spans(r@).push((start_y, ch)));
        }
        r.push(ChunkRecipe { y_start: start_y, n_rows: ch });
        start_y = start_y + ch;
        i = i + 1;
    }
    if rem > 0 {
        proof {
            lemma_spans_push(
                recipe_spans(r@),
                0,
                start_y as nat,
                (start_y, rem),
            );
            assert(recipe_spans(r@.push(ChunkRecipe { y_start: start_y, n_rows: rem }))
                =~= recipe_spans(r@).push((start_y, rem)));
        }
        r.push(ChunkRecipe { y_start: start_y, n_rows: rem });
    }
    r
}

/// One finished chunk of an iteration map: a row range and, for every
/// pixel of those rows in row-major order, its iteration count.
#[derive(Debug, Clone)]
pub struct IterMapChunk {
    pub y_start: usize,
    pub n_rows: usize,
    pub data: Vec<usize>,
}

/// The row spans of a chunk list.
pub open spec fn chunk_spans(s: Seq<IterMapChunk>) -> Seq<(usize, usize)> {
    s.map_values(|c: IterMapChunk| (c.y_start, c.n_rows))
}

/// A chunk's payload fits its row range: one count per pixel, none above
/// the iteration limit.
pub open spec fn chunk_data_ok(c: IterMapChunk, width: nat, limit: nat) -> bool {
    &&& c.data@.len() == c.n_rows * width
    &&& forall|i: int| 0 <= i < c.data@.len() ==> c.data@[i] <= limit
}

/// Every chunk's payload fits.
pub open spec fn chunks_data_ok(s: Seq<IterMapChunk>, width: nat, limit: nat) -> bool {
    forall|i: int| 0 <= i < s.len() ==> chunk_data_ok(#[trigger] s[i], width, limit)
}

/// All counts of a chunk list, concatenated in chunk order: the
/// row-major reading of the map when the chunks are in row order.
pub open spec fn flat_counts(s: Seq<IterMapChunk>) -> Seq<usize>
    decreases s.len(),
{
    if s.len() == 0 {
        Seq::empty()
    } else {
        s[0].data@ + flat_counts(s.drop_first())
    }
}

/// Chunks in ascending order of starting row.
pub open spec fn sorted_by_start(s: Seq<IterMapChunk>) -> bool {
    forall|i: int, j: int|
        0 <= i < j < s.len() ==> #[trigger] s[i].y_start <= #[trigger] s[j].y_start
}

/// A partitioned, well-filled chunk list has exactly one count per
/// pixel of its row range.
proof fn lemma_flat_len(s: Seq<IterMapChunk>, start: nat, end: nat, width: nat, limit: nat)
    requires
        spans_partition(chunk_spans(s), start, end),
        chunks_data_ok(s, width, limit),
    ensures
        start <= end,
        flat_counts(s).len() == (end - start) * width,
    decreases s.len(),
{
    if s.len() == 0 {
        assert((end - start) * width == 0) by (nonlinear_arith)
            requires
                end == start,
        ;
    } else {
        assert(chunk_spans(s)[0] == (s[0].y_start, s[0].n_rows));
        assert(chunk_spans(s).drop_first() =~= chunk_spans(s.drop_first()));
        assert(chunks_data_ok(s.drop_first(), width, limit)) by {
            assert(forall|i: int|
                0 <= i < s.drop_first().len() ==> s.drop_first()[i] == s[i + 1]);
        }
        lemma_flat_len(s.drop_first(), (start + s[0].n_rows) as nat, end, width, limit);
        assert(s[0].data@.len() == s[0].n_rows * width);
        assert(s[0].n_rows * width + (end - (start + s[0].n_rows)) * width == (end - start)
            * width) by (nonlinear_arith)
            requires
                start + s[0].n_rows <= end,
        ;
    }
}

/// Every span of a partition of `[start, end)` begins at or after
/// `start`, and every span but the first begins strictly after it.
proof fn lemma_spans_lower_bound(sp: Seq<(usize, usize)>, start: nat, end: nat)
    requires
        spans_partition(sp, start, end),
    ensures
        forall|j: int| 0 <= j < sp.len() ==> (#[trigger] sp[j]).0 >= start,
        forall|j: int| 1 <= j < sp.len() ==> (#[trigger] sp[j]).0 > start,
    decreases sp.len(),
{
    if sp.len() > 0 {
        lemma_spans_lower_bound(sp.drop_first(), (start + sp[0].1) as nat, end);
        assert(forall|j: int| 1 <= j < sp.len() ==> sp[j] == sp.drop_first()[j - 1]);
    }
}

/// A partition covers `[start, end)` going up, so `start <= end`.
proof fn lemma_spans_start_le_end(sp: Seq<(usize, usize)>, start: nat, end: nat)
    requires
        spans_partition(sp, start, end),
    ensures
        start <= end,
    decreases sp.len(),
{
    if sp.len() > 0 {
        lemma_spans_start_le_end(sp.drop_first(), (start + sp[0].1) as nat, end);
    }
}

/// If a prefix of a partition of `[start, end)` partitions
/// `[start, mid)`, the next span begins exactly at `mid`, is non-empty,
/// and `mid` has not passed `end`.
proof fn lemma_spans_prefix_next(sp: Seq<(usize, usize)>, start: nat, end: nat, mid: nat, i: int)
    requires
        spans_partition(sp, start, end),
        0 <= i < sp.len(),
        spans_partition(sp.subrange(0, i), start, mid),
    ensures
        sp[i].0 == mid,
        sp[i].1 >= 1,
        mid <= end,
    decreases i,
{
    lemma_spans_start_le_end(sp, start, end);
    if i == 0 {
        assert(mid == start);
    } else {
        assert(sp.subrange(0, i)[0] == sp[0]);
        assert(sp.subrange(0, i).drop_first() =~= sp.drop_first().subrange(0, i - 1));
        lemma_spans_prefix_next(
            sp.drop_first(),
            (start + sp[0].1) as nat,
            end,
            mid,
            i - 1,
        );
        assert(sp[i] == sp.drop_first()[i - 1]);
    }
}

/// Two partitions of the same span list over the same start agree on
/// the end.
proof fn lemma_spans_end_unique(sp: Seq<(usize, usize)>, start: nat, end1: nat, end2: nat)
    requires
        spans_partition(sp, start, end1),
        spans_partition(sp, start, end2),
    ensures
        end1 == end2,
    decreases sp.len(),
{
    if sp.len() > 0 {
        lemma_spans_end_unique(sp.drop_first(), (start + sp[0].1) as nat, end1, end2);
    }
}

/// Consecutive spans of a partition do not overlap: each one ends
/// before (or exactly where) any later one begins.
proof fn lemma_spans_disjoint(sp: Seq<(usize, usize)>, start: nat, end: nat)
    requires
        spans_partition(sp, start, end),
    ensures
        forall|i: int, j: int|
            0 <= i < j < sp.len() ==> (#[trigger] sp[i]).0 + sp[i].1 <= (#[trigger] sp[j]).0,
    decreases sp.len(),
{
    if sp.len() > 0 {
        lemma_spans_disjoint(sp.drop_first(), (start + sp[0].1) as nat, end);
        lemma_spans_lower_bound(sp.drop_first(), (start + sp[0].1) as nat, end);
        assert(forall|j: int| 1 <= j < sp.len() ==> sp[j] == sp.drop_first()[j - 1]);
    }
}

/// A span of a row range contains a given row.
pub open spec fn span_contains(s: (usize, usize), row: nat) -> bool {
    s.0 <= row < s.0 + s.1
}

/// Row-partition completeness: a partition of `[start, end)` covers
/// every row of the range in exactly one span, whatever the span count
/// and however unevenly the rows were split.
pub proof fn lemma_partition_covers_each_row_once(
    sp: Seq<(usize, usize)>,
    start: nat,
    end: nat,
    row: nat,
)
    requires
        spans_partition(sp, start, end),
        start <= row < end,
    ensures
        exists|i: int| 0 <= i < sp.len() && span_contains(#[trigger] sp[i], row),
        forall|i: int, j: int|
            0 <= i < sp.len() && 0 <= j < sp.len() && span_contains(#[trigger] sp[i], row)
                && span_contains(#[trigger] sp[j], row) ==> i == j,
    decreases sp.len(),
{
    lemma_spans_disjoint(sp, start, end);
    if row < start + sp[0].1 {
        assert(span_contains(sp[0], row));
    } else {
        lemma_partition_covers_each_row_once(
            sp.drop_first(),
            (start + sp[0].1) as nat,
            end,
            row,
        );
        let k = choose|k: int|
            0 <= k < sp.drop_first().len() && span_contains(#[trigger] sp.drop_first()[k], row);
        assert(sp[k + 1] == sp.drop_first()[k]);
        assert(span_contains(sp[k + 1], row));
    }
}

/// A sorted chunk list with the same chunks as a partition is that
/// partition: once completed chunks are sorted by starting row, the
/// stitched map does not depend on the order they completed in.
proof fn lemma_partition_unique(a: Seq<IterMapChunk>, b: Seq<IterMapChunk>, start: nat, end: nat)
    requires
        a.to_multiset() == b.to_multiset(),
        sorted_by_start(a),
        spans_partition(chunk_spans(b), start, end),
    ensures
        a == b,
    decreases b.len(),
{
    broadcast use vstd::seq_lib::group_to_multiset_ensures;

    if b.len() == 0 {
        assert(a.to_multiset().len() == 0);
        assert(a =~= b);
    } else {
        assert(a.len() == a.to_multiset().len());
        assert(b.len() == b.to_multiset().len());
        assert(a.len() == b.len());
        assert(chunk_spans(b)[0] == (b[0].y_start, b[0].n_rows));
        lemma_spans_lower_bound(chunk_spans(b), start, end);
        assert forall|j: int| 1 <= j < b.len() implies (#[trigger] b[j]).y_start > start by {
            assert(chunk_spans(b)[j] == (b[j].y_start, b[j].n_rows));
            assert(chunk_spans(b)[j].0 > start);
        }
        // The head of `a` is the head of `b`: `a` holds an element with
        // starting row `start` (namely b[0]); by sortedness a[0] starts
        // at or before it; and a[0] is some b[j], all of which except
        // b[0] start strictly after `start`.
        assert(b.contains(b[0]));
        assert(a.to_multiset().count(b[0]) > 0);
        assert(a.contains(b[0]));
        let k = choose|k: int| 0 <= k < a.len() && a[k] == b[0];
        assert(a[0].y_start <= a[k].y_start);
        assert(b.to_multiset().count(a[0]) > 0);
        assert(b.contains(a[0]));
        let j = choose|j: int| 0 <= j < b.len() && b[j] == a[0];
        assert(j == 0) by {
            if j != 0 {
                assert(a[0].y_start > start);
            }
        }
        assert(a[0] == b[0]);
        // Recurse on the tails.
        assert(a.drop_first() =~= a.remove(0));
        assert(b.drop_first() =~= b.remove(0));
        assert(a.remove(0).to_multiset() =~= b.remove(0).to_multiset());
        assert(sorted_by_start(a.drop_first())) by {
            assert(forall|t: int| 0 <= t < a.drop_first().len() ==> a.drop_first()[t] == a[t + 1]);
        }
        assert(chunk_spans(b).drop_first() =~= chunk_spans(b.drop_first()));
        lemma_partition_unique(
            a.drop_first(),
            b.drop_first(),
            (start + b[0].n_rows) as nat,
            end,
        );
        assert forall|t: int| 0 <= t < a.len() implies a[t] == b[t] by {
            if t > 0 {
                assert(a[t] == a.drop_first()[t - 1]);
                assert(b[t] == b.drop_first()[t - 1]);
            }
        }
        assert(a =~= b);
    }
}

/// The chunk lists that can be stitched into a well-formed map of the
/// given dimensions and limit: some arrangement of them tiles the grid.
pub open spec fn assemblable(s: Seq<IterMapChunk>, xpix: usize, ypix: usize, limit: usize) -> bool {
    &&& 1 <= xpix
    &&& 1 <= ypix
    &&& xpix * ypix <= usize::MAX
    &&& exists|t: Seq<IterMapChunk>|
        {
            &&& #[trigger] t.to_multiset() == s.to_multiset()
            &&& spans_partition(chunk_spans(t), 0, ypix as nat)
            &&& chunks_data_ok(t, xpix as nat, limit as nat)
        }
}

/// If the sorted arrangement of a chunk list fails to tile the grid,
/// no arrangement does.
proof fn lemma_unassemblable(
    s: Seq<IterMapChunk>,
    orig: Seq<IterMapChunk>,
    xpix: usize,
    ypix: usize,
    limit: usize,
)
    requires
        s.to_multiset() == orig.to_multiset(),
        sorted_by_start(s),
        !(spans_partition(chunk_spans(s), 0, ypix as nat) && chunks_data_ok(
            s,
            xpix as nat,
            limit as nat,
        )),
    ensures
        !assemblable(orig, xpix, ypix, limit),
{
    if assemblable(orig, xpix, ypix, limit) {
        let t = choose|t: Seq<IterMapChunk>|
            {
                &&& #[trigger] t.to_multiset() == orig.to_multiset()
                &&& spans_partition(chunk_spans(t), 0, ypix as nat)
                &&& chunks_data_ok(t, xpix as nat, limit as nat)
            };
        lemma_partition_unique(s, t, 0, ypix as nat);
    }
}

/// Sort chunks by starting row, by repeatedly taking the remaining
/// chunk with the smallest start. Parallel workers finish in arbitrary
/// order; this restores top-to-bottom order.
fn sort_chunks(input: Vec<IterMapChunk>) -> (r: Vec<IterMapChunk>)
    ensures
        sorted_by_start(r@),
        r@.to_multiset() == input@.to_multiset(),
{
    let mut src = input;
    let mut out: Vec<IterMapChunk> = Vec::new();
    proof {
        broadcast use vstd::seq_lib::group_to_multiset_ensures;

        assert(out@.to_multiset().add(src@.to_multiset()) =~= input@.to_multiset());
    }
    while src.len() > 0
        invariant
            out@.to_multiset().add(src@.to_multiset()) == input@.to_multiset(),
            sorted_by_start(out@),
            forall|i: int, j: int|
                0 <= i < out@.len() && 0 <= j < src@.len() ==> #[trigger] out@[i].y_start
                    <= #[trigger] src@[j].y_start,
        decreases src@.len(),
    {
        let mut min_i: usize = 0;
        let mut k: usize = 1;
        while k < src.len()
            invariant
                1 <= src@.len(),
                0 <= min_i < src@.len(),
                1 <= k <= src@.len(),
                forall|j: int|
                    0 <= j < k ==> src@[min_i as int].y_start <= #[trigger] src@[j].y_start,
            decreases src@.len() - k,
        {
            if src[k].y_start < src[min_i].y_start {
                min_i = k;
            }
            k = k + 1;
        }
        let ghost old_src = src@;
        let ghost old_out = out@;
        let c = src.remove(min_i);
        out.push(c);
        proof {
            broadcast use vstd::seq_lib::group_to_multiset_ensures;

            assert(old_src.contains(c)) by {
                assert(old_src[min_i as int] == c);
            }
            assert(out@.to_multiset().add(src@.to_multiset()) =~= old_out.to_multiset().add(
                old_src.to_multiset()));
            assert(forall|j: int|
                0 <= j < src@.len() ==> #[trigger] src@[j].y_start >= c.y_start) by {
                assert(forall|j: int|
                    0 <= j < src@.len() ==> src@[j] == if j < min_i {
                        old_src[j]
                    } else {
                        old_src[j + 1]
                    });
            }
        }
    }
    out
}

/// Appending a chunk appends its counts.
proof fn lemma_flat_counts_push(s: Seq<IterMapChunk>, c: IterMapChunk)
    ensures
        flat_counts(s.push(c)) == flat_counts(s) + c.data@,
    decreases s.len(),
{
    if s.len() == 0 {
        reveal_with_fuel(flat_counts, 3);
        assert(s.push(c)[0] == c);
        assert(s.push(c).drop_first() =~= Seq::<IterMapChunk>::empty());
        assert(flat_counts(s.push(c)) =~= flat_counts(s) + c.data@);
    } else {
        assert(s.push(c)[0] == s[0]);
        assert(s.push(c).drop_first() =~= s.drop_first().push(c));
        lemma_flat_counts_push(s.drop_first(), c);
        assert(flat_counts(s.push(c)) =~= flat_counts(s) + c.data@);
    }
}

/// Extending a chunk prefix by one chunk appends that chunk's counts.
proof fn lemma_flat_counts_snoc(s: Seq<IterMapChunk>, i: int)
    requires
        0 <= i < s.len(),
    ensures
        flat_counts(s.subrange(0, i + 1)) == flat_counts(s.subrange(0, i)) + s[i].data@,
{
    assert(s.subrange(0, i + 1) =~= s.subrange(0, i).push(s[i]));
    lemma_flat_counts_push(s.subrange(0, i), s[i]);
}

/// Concatenating chunk lists concatenates their counts.
proof fn lemma_flat_counts_concat(a: Seq<IterMapChunk>, b: Seq<IterMapChunk>)
    ensures
        flat_counts(a + b) == flat_counts(a) + flat_counts(b),
    decreases a.len(),
{
    if a.len() == 0 {
        assert(a + b =~= b);
        assert(flat_counts(a + b) =~= flat_counts(a) + flat_counts(b));
    } else {
        assert((a + b)[0] == a[0]);
        assert((a + b).drop_first() =~= a.drop_first() + b);
        lemma_flat_counts_concat(a.drop_first(), b);
        assert(flat_counts(a + b) =~= flat_counts(a) + flat_counts(b));
    }
}

/// How many counts of `s` equal `limit`: the pixels still alive at that
/// limit, the ones a re-iteration to a higher limit must revisit.
pub open spec fn pending_count(s: Seq<usize>, limit: usize) -> nat
    decreases s.len(),
{
    if s.len() == 0 {
        0
    } else {
        pending_count(s.drop_last(), limit) + if s.last() == limit {
            1nat
        } else {
            0nat
        }
    }
}

/// How many pending counts lie strictly before position `i`.
pub open spec fn pending_before(s: Seq<usize>, limit: usize, i: int) -> nat {
    pending_count(s.subrange(0, i), limit)
}

/// The positions of the pending counts, in ascending order.
pub open spec fn pending_positions(s: Seq<usize>, limit: usize) -> Seq<int>
    decreases s.len(),
{
    if s.len() == 0 {
        Seq::empty()
    } else {
        pending_positions(s.drop_last(), limit) + if s.last() == limit {
            seq![s.len() - 1]
        } else {
            Seq::<int>::empty()
        }
    }
}

/// What counts become under re-iteration: a count below the old limit
/// keeps its value; the `t`-th count equal to it (counting from `base`)
/// takes the `base + t`-th freshly computed value.
pub open spec fn merged_counts_from(
    s: Seq<usize>,
    fresh: Seq<usize>,
    base: nat,
    limit: usize,
) -> Seq<usize> {
    Seq::new(
        s.len(),
        |i: int|
            if s[i] == limit {
                fresh[(base + pending_before(s, limit, i)) as int]
            } else {
                s[i]
            },
    )
}

/// What a whole map's counts become under re-iteration with the given
/// fresh values.
pub open spec fn merged_counts(s: Seq<usize>, fresh: Seq<usize>, limit: usize) -> Seq<usize> {
    merged_counts_from(s, fresh, 0, limit)
}

/// Appending one count extends the pending bookkeeping in the obvious
/// way.
proof fn lemma_pending_snoc(s: Seq<usize>, x: usize, limit: usize)
    ensures
        pending_count(s.push(x), limit) == pending_count(s, limit) + if x == limit {
            1nat
        } else {
            0nat
        },
        pending_positions(s.push(x), limit) == pending_positions(s, limit) + if x == limit {
            seq![s.len() as int]
        } else {
            Seq::<int>::empty()
        },
{
    assert(s.push(x).drop_last() =~= s);
    assert(s.push(x).last() == x);
}

/// Pending counts add up over concatenation.
proof fn lemma_pending_concat(a: Seq<usize>, b: Seq<usize>, limit: usize)
    ensures
        pending_count(a + b, limit) == pending_count(a, limit) + pending_count(b, limit),
    decreases b.len(),
{
    if b.len() == 0 {
        assert(a + b =~= a);
    } else {
        assert((a + b).drop_last() =~= a + b.drop_last());
        assert((a + b).last() == b.last());
        lemma_pending_concat(a, b.drop_last(), limit);
    }
}

/// No more counts are pending than there are counts.
proof fn lemma_pending_le_len(s: Seq<usize>, limit: usize)
    ensures
        pending_count(s, limit) <= s.len(),
    decreases s.len(),
{
    if s.len() > 0 {
        lemma_pending_le_len(s.drop_last(), limit);
    }
}

/// A pending count's rank is below the total pending count.
proof fn lemma_pending_before_lt(s: Seq<usize>, limit: usize, u: int)
    requires
        0 <= u < s.len(),
        s[u] == limit,
    ensures
        pending_before(s, limit, u) < pending_count(s, limit),
{
    assert(s.subrange(0, u + 1).drop_last() =~= s.subrange(0, u));
    assert(s.subrange(0, u + 1).last() == s[u]);
    assert(s =~= s.subrange(0, u + 1) + s.subrange(u + 1, s.len() as int));
    lemma_pending_concat(s.subrange(0, u + 1), s.subrange(u + 1, s.len() as int), limit);
}

/// The pending positions are exactly the positions holding the limit,
/// each at the index given by its rank, and rank and position determine
/// one another.
proof fn lemma_positions_spec(s: Seq<usize>, limit: usize)
    ensures
        pending_positions(s, limit).len() == pending_count(s, limit),
        forall|t: int|
            0 <= t < pending_positions(s, limit).len() ==> {
                let p = #[trigger] pending_positions(s, limit)[t];
                &&& 0 <= p < s.len()
                &&& s[p] == limit
                &&& pending_before(s, limit, p) == t
            },
        forall|i: int|
            0 <= i < s.len() && #[trigger] s[i] == limit ==> pending_positions(s, limit)[
                pending_before(s, limit, i) as int] == i,
    decreases s.len(),
{
    if s.len() == 0 {
    } else {
        let d = s.drop_last();
        let x = s.last();
        lemma_positions_spec(d, limit);
        lemma_pending_le_len(d, limit);
        assert forall|i: int| 0 <= i <= d.len() implies pending_before(s, limit, i)
            == pending_before(d, limit, i) by {
            assert(s.subrange(0, i) =~= d.subrange(0, i));
        }
        assert(d.subrange(0, d.len() as int) =~= d);
        assert(pending_before(s, limit, d.len() as int) == pending_count(d, limit));
        assert forall|t: int| 0 <= t < pending_positions(s, limit).len() implies {
            let p = #[trigger] pending_positions(s, limit)[t];
            &&& 0 <= p < s.len()
            &&& s[p] == limit
            &&& pending_before(s, limit, p) == t
        } by {
            if t < pending_positions(d, limit).len() {
                assert(pending_positions(s, limit)[t] == pending_positions(d, limit)[t]);
                let p = pending_positions(d, limit)[t];
                assert(s[p] == d[p]);
            } else {
                assert(x == limit);
                assert(pending_positions(s, limit)[t] == d.len() as int);
            }
        }
        assert forall|i: int|
            0 <= i < s.len() && #[trigger] s[i] == limit implies pending_positions(s, limit)[
            pending_before(s, limit, i) as int] == i by {
            if i < d.len() {
                assert(d[i] == limit);
                lemma_pending_before_lt(d, limit, i);
                assert(pending_positions(d, limit)[pending_before(d, limit, i) as int] == i);
                assert(pending_positions(s, limit)[pending_before(d, limit, i) as int]
                    == pending_positions(d, limit)[pending_before(d, limit, i) as int]);
            } else {
                assert(i == d.len());
                assert(x == limit);
                assert(pending_before(s, limit, i) == pending_count(d, limit));
                assert(pending_positions(s, limit)[pending_count(d, limit) as int] == d.len()
                    as int);
            }
        }
    }
}

/// Merging distributes over concatenation: the second part reads its
/// fresh values after those the first part consumed.
proof fn lemma_merged_concat(
    a: Seq<usize>,
    b: Seq<usize>,
    fresh: Seq<usize>,
    base: nat,
    limit: usize,
)
    ensures
        merged_counts_from(a + b, fresh, base, limit) == merged_counts_from(a, fresh, base, limit)
            + merged_counts_from(b, fresh, (base + pending_count(a, limit)) as nat, limit),
{
    let l = merged_counts_from(a + b, fresh, base, limit);
    let r = merged_counts_from(a, fresh, base, limit) + merged_counts_from(
        b,
        fresh,
        (base + pending_count(a, limit)) as nat,
        limit,
    );
    assert(l.len() == r.len());
    assert forall|i: int| 0 <= i < l.len() implies l[i] == r[i] by {
        if i < a.len() {
            assert((a + b)[i] == a[i]);
            assert((a + b).subrange(0, i) =~= a.subrange(0, i));
        } else {
            assert((a + b)[i] == b[i - a.len()]);
            assert((a + b).subrange(0, i) =~= a + b.subrange(0, i - a.len()));
            lemma_pending_concat(a, b.subrange(0, i - a.len()), limit);
        }
    }
    assert(l =~= r);
}

/// Count the entries of `data` that equal `limit`.
fn count_pending(data: &Vec<usize>, limit: usize) -> (k: usize)
    ensures
        k == pending_count(data@, limit),
{
    let mut k: usize = 0;
    let mut j: usize = 0;
    while j < data.len()
        invariant
            0 <= j <= data@.len(),
            k == pending_count(data@.subrange(0, j as int), limit),
            k <= j,
        decreases data@.len() - j,
    {
        proof {
            assert(data@.subrange(0, j + 1).drop_last() =~= data@.subrange(0, j as int));
            assert(data@.subrange(0, j + 1).last() == data@[j as int]);
        }
        if data[j] == limit {
            k = k + 1;
        }
        j = j + 1;
    }
    proof {
        assert(data@.subrange(0, data@.len() as int) =~= data@);
    }
    k
}

/// Do all entries of `data` stay at or below `bound`?
fn all_at_most(data: &Vec<usize>, bound: usize) -> (r: bool)
    ensures
        r == forall|i: int| 0 <= i < data@.len() ==> #[trigger] data@[i] <= bound,
{
    let mut j: usize = 0;
    while j < data.len()
        invariant
            0 <= j <= data@.len(),
            forall|i: int| 0 <= i < j ==> #[trigger] data@[i] <= bound,
        decreases data@.len() - j,
    {
        if data[j] > bound {
            return false;
        }
        j = j + 1;
    }
    true
}

/// Rebuild one chunk's counts for a re-iteration: entries equal to
/// `limit` take the next fresh values, starting at rank `k`; the rest
/// keep their value.
fn merge_chunk_data(data: &Vec<usize>, limit: usize, fresh: &Vec<usize>, k: usize) -> (nd: Vec<
    usize,
>)
    requires
        k + pending_count(data@, limit) <= fresh@.len(),
    ensures
        nd@ == merged_counts_from(data@, fresh@, k as nat, limit),
{
    let mut nd: Vec<usize> = Vec::new();
    let flen = fresh.len();
    let mut kk: usize = k;
    let mut j: usize = 0;
    while j < data.len()
        invariant
            0 <= j <= data@.len(),
            flen == fresh@.len(),
            k + pending_count(data@, limit) <= fresh@.len(),
            kk == k + pending_before(data@, limit, j as int),
            nd@.len() == j,
            forall|i: int|
                0 <= i < j ==> #[trigger] nd@[i] == merged_counts_from(
                    data@,
                    fresh@,
                    k as nat,
                    limit,
                )[i],
        decreases data@.len() - j,
    {
        proof {
            assert(data@.subrange(0, j + 1).drop_last() =~= data@.subrange(0, j as int));
            assert(data@.subrange(0, j + 1).last() == data@[j as int]);
        }
        if data[j] == limit {
            proof {
                lemma_pending_before_lt(data@, limit, j as int);
            }
            nd.push(fresh[kk]);
            kk = kk + 1;
        } else {
            nd.push(data[j]);
        }
        j = j + 1;
    }
    proof {
        assert(nd@ =~= merged_counts_from(data@, fresh@, k as nat, limit));
    }
    nd
}

/// An image in iteration-map form: for every pixel, how many iterations
/// its point took to diverge, where a stored count equal to the limit
/// means it had not diverged when the limit was reached. The chunked
/// internal representation is opaque; the map exists to be colored, and
/// to be extended by re-iteration.
pub struct IterMap {
    width: usize,
    height: usize,
    limit: usize,
    chunks: Vec<IterMapChunk>,
}

impl IterMap {
    /// The pixel width.
    pub closed spec fn width_spec(self) -> usize {
        self.width
    }

    /// The pixel height.
    pub closed spec fn height_spec(self) -> usize {
        self.height
    }

    /// The iteration limit the map currently holds counts for.
    pub closed spec fn limit_spec(self) -> usize {
        self.limit
    }

    /// The chunk list.
    pub closed spec fn chunks_spec(self) -> Seq<IterMapChunk> {
        self.chunks@
    }

    /// All per-pixel counts, row-major.
    pub open spec fn counts(self) -> Seq<usize> {
        flat_counts(self.chunks_spec())
    }

    /// A well-formed map: positive dimensions whose pixel total is
    /// addressable, chunks in row order tiling the grid exactly, every
    /// chunk filled with one count per pixel, no count above the limit.
    pub open spec fn wf(self) -> bool {
        &&& 1 <= self.width_spec()
        &&& 1 <= self.height_spec()
        &&& self.width_spec() * self.height_spec() <= usize::MAX
        &&& spans_partition(chunk_spans(self.chunks_spec()), 0, self.height_spec() as nat)
        &&& chunks_data_ok(
            self.chunks_spec(),
            self.width_spec() as nat,
            self.limit_spec() as nat,
        )
    }

    /// The pixel width.
    pub fn width(&self) -> (r: usize)
        ensures
            r == self.width_spec(),
    {
        self.width
    }

    /// The pixel height.
    pub fn height(&self) -> (r: usize)
        ensures
            r == self.height_spec(),
    {
        self.height
    }

    /// The iteration limit the map was last computed or extended to.
    pub fn limit(&self) -> (r: usize)
        ensures
            r == self.limit_spec(),
    {
        self.limit
    }

    /// A well-formed map stores exactly one count per pixel.
    pub proof fn lemma_counts_len(self)
        requires
            self.wf(),
        ensures
            self.counts().len() == self.width_spec() * self.height_spec(),
    {
        lemma_flat_len(
            self.chunks_spec(),
            0,
            self.height_spec() as nat,
            self.width_spec() as nat,
            self.limit_spec() as nat,
        );
        assert(self.height_spec() * self.width_spec() == self.width_spec()
            * self.height_spec()) by (nonlinear_arith);
    }

    /// Stitch computed chunks into a map. The chunks may arrive in any
    /// order; they are sorted by starting row. Succeeds exactly when
    /// they tile `ypix` rows without gap or overlap, each carries one
    /// count per pixel of its rows, no count exceeds `limit`, and the
    /// grid has at least one pixel and an addressable total.
    pub fn compile(xpix: usize, ypix: usize, limit: usize, chunks: Vec<IterMapChunk>) -> (r:
        Result<IterMap, crate::EngineError>)
        ensures
            match r {
                Ok(m) => {
                    &&& m.wf()
                    &&& m.width_spec() == xpix
                    &&& m.height_spec() == ypix
                    &&& m.limit_spec() == limit
                    &&& sorted_by_start(m.chunks_spec())
                    &&& m.chunks_spec().to_multiset() == chunks@.to_multiset()
                    &&& assemblable(chunks@, xpix, ypix, limit)
                },
                Err(e) => {
                    &&& e == crate::EngineError::BadChunks
                    &&& !assemblable(chunks@, xpix, ypix, limit)
                },
            },
    {
        if xpix == 0 || ypix == 0 {
            return Err(crate::EngineError::BadChunks);
        }
        if xpix.checked_mul(ypix).is_none() {
            return Err(crate::EngineError::BadChunks);
        }
        let s = sort_chunks(chunks);
        let n = s.len();
        let mut start: usize = 0;
        let mut idx: usize = 0;
        proof {
            assert(chunk_spans(s@.subrange(0, 0)) =~= Seq::<(usize, usize)>::empty());
        }
        while idx < n
            invariant
                n == s@.len(),
                0 <= idx <= n,
                1 <= xpix,
                1 <= ypix,
                sorted_by_start(s@),
                s@.to_multiset() == chunks@.to_multiset(),
                spans_partition(chunk_spans(s@.subrange(0, idx as int)), 0, start as nat),
                chunks_data_ok(s@.subrange(0, idx as int), xpix as nat, limit as nat),
            decreases n - idx,
        {
            let c_y_start = s[idx].y_start;
            let c_n_rows = s[idx].n_rows;
            proof {
                if spans_partition(chunk_spans(s@), 0, ypix as nat) {
                    assert(chunk_spans(s@).subrange(0, idx as int) =~= chunk_spans(
                        s@.subrange(0, idx as int),
                    ));
                    lemma_spans_prefix_next(
                        chunk_spans(s@),
                        0,
                        ypix as nat,
                        start as nat,
                        idx as int,
                    );
                    assert(chunk_spans(s@)[idx as int] == (c_y_start, c_n_rows));
                }
            }
            if c_y_start != start {
                proof {
                    lemma_unassemblable(s@, chunks@, xpix, ypix, limit);
                }
                return Err(crate::EngineError::BadChunks);
            }
            if c_n_rows == 0 {
                proof {
                    lemma_unassemblable(s@, chunks@, xpix, ypix, limit);
                }
                return Err(crate::EngineError::BadChunks);
            }
            let m = s[idx].data.len();
            let expect = match c_n_rows.checked_mul(xpix) {
                None => {
                    proof {
                        assert(!chunk_data_ok(s@[idx as int], xpix as nat, limit as nat));
                        lemma_unassemblable(s@, chunks@, xpix, ypix, limit);
                    }
                    return Err(crate::EngineError::BadChunks);
                },
                Some(e) => e,
            };
            if m != expect {
                proof {
                    assert(!chunk_data_ok(s@[idx as int], xpix as nat, limit as nat));
                    lemma_unassemblable(s@, chunks@, xpix, ypix, limit);
                }
                return Err(crate::EngineError::BadChunks);
            }
            let mut j: usize = 0;
            while j < m
                invariant
                    n == s@.len(),
                    0 <= idx < n,
                    sorted_by_start(s@),
                    s@.to_multiset() == chunks@.to_multiset(),
                    m == s@[idx as int].data@.len(),
                    0 <= j <= m,
                    forall|t: int| 0 <= t < j ==> s@[idx as int].data@[t] <= limit,
                decreases m - j,
            {
                if s[idx].data[j] > limit {
                    proof {
                        assert(!chunk_data_ok(s@[idx as int], xpix as nat, limit as nat));
                        lemma_unassemblable(s@, chunks@, xpix, ypix, limit);
                    }
                    return Err(crate::EngineError::BadChunks);
                }
                j = j + 1;
            }
            start = match start.checked_add(c_n_rows) {
                None => {
                    proof {
                        if spans_partition(chunk_spans(s@), 0, ypix as nat) {
                            lemma_spans_push(
                                chunk_spans(s@.subrange(0, idx as int)),
                                0,
                                start as nat,
                                (c_y_start, c_n_rows),
                            );
                            assert(chunk_spans(s@).subrange(0, idx + 1) =~= chunk_spans(
                                s@.subrange(0, idx as int),
                            ).push((c_y_start, c_n_rows)));
                            assert(chunk_spans(s@).subrange(0, idx + 1) =~= chunk_spans(
                                s@.subrange(0, idx + 1),
                            ));
                            if idx + 1 < n {
                                lemma_spans_prefix_next(
                                    chunk_spans(s@),
                                    0,
                                    ypix as nat,
                                    (start + c_n_rows) as nat,
                                    idx + 1,
                                );
                            } else {
                                assert(chunk_spans(s@).subrange(0, idx + 1) =~= chunk_spans(
                                    s@,
                                ));
                                lemma_spans_end_unique(
                                    chunk_spans(s@),
                                    0,
                                    ypix as nat,
                                    (start + c_n_rows) as nat,
                                );
                            }
                        }
                        lemma_unassemblable(s@, chunks@, xpix, ypix, limit);
                    }
                    return Err(crate::EngineError::BadChunks);
                },
                Some(t) => t,
            };
            idx = idx + 1;
            proof {
                lemma_spans_push(
                    chunk_spans(s@.subrange(0, idx - 1)),
                    0,
                    (start - c_n_rows) as nat,
                    (c_y_start, c_n_rows),
                );
                assert(chunk_spans(s@.subrange(0, idx as int)) =~= chunk_spans(
                    s@.subrange(0, idx - 1),
                ).push((c_y_start, c_n_rows)));
                assert(chunks_data_ok(s@.subrange(0, idx as int), xpix as nat, limit as nat))
                    by {
                    assert(forall|t: int|
                        0 <= t < idx ==> s@.subrange(0, idx as int)[t] == s@[t]);
                    assert(forall|t: int|
                        0 <= t < idx - 1 ==> s@.subrange(0, idx - 1)[t] == s@[t]);
                    assert(chunk_data_ok(s@[idx - 1], xpix as nat, limit as nat));
                }
            }
        }
        if start != ypix {
            proof {
                if spans_partition(chunk_spans(s@), 0, ypix as nat) {
                    assert(chunk_spans(s@).subrange(0, n as int) =~= chunk_spans(
                        s@.subrange(0, n as int),
                    ));
                    assert(chunk_spans(s@).subrange(0, n as int) =~= chunk_spans(s@));
                    lemma_spans_end_unique(chunk_spans(s@), 0, ypix as nat, start as nat);
                }
                lemma_unassemblable(s@, chunks@, xpix, ypix, limit);
            }
            return Err(crate::EngineError::BadChunks);
        }
        proof {
            assert(s@.subrange(0, n as int) =~= s@);
            assert(s@.to_multiset() == chunks@.to_multiset());
        }
        Ok(IterMap { width: xpix, height: ypix, limit, chunks: s })
    }

    /// Row-partition completeness: a well-formed map's chunks cover
    /// every pixel row exactly once, whatever the chunk count and
    /// however unevenly the rows were split.
    pub proof fn lemma_rows_covered_once(self, row: nat)
        requires
            self.wf(),
            row < self.height_spec(),
        ensures
            exists|i: int|
                0 <= i < self.chunks_spec().len() && span_contains(
                    #[trigger] chunk_spans(self.chunks_spec())[i],
                    row,
                ),
            forall|i: int, j: int|
                0 <= i < self.chunks_spec().len() && 0 <= j < self.chunks_spec().len()
                    && span_contains(#[trigger] chunk_spans(self.chunks_spec())[i], row)
                    && span_contains(#[trigger] chunk_spans(self.chunks_spec())[j], row) ==> i
                    == j,
    {
        lemma_partition_covers_each_row_once(
            chunk_spans(self.chunks_spec()),
            0,
            self.height_spec() as nat,
            row,
        );
    }

    /// Determinism of assembly: two well-formed maps of the same
    /// dimensions and limit built, in row order, from the same set of
    /// completed chunks are the same map. With `compile`'s contract this
    /// says that chunk completion order cannot influence the result.
    pub proof fn lemma_assembly_deterministic(m1: IterMap, m2: IterMap)
        requires
            m1.wf(),
            m2.wf(),
            sorted_by_start(m1.chunks_spec()),
            m1.chunks_spec().to_multiset() == m2.chunks_spec().to_multiset(),
            m1.width_spec() == m2.width_spec(),
            m1.height_spec() == m2.height_spec(),
            m1.limit_spec() == m2.limit_spec(),
        ensures
            m1.chunks_spec() == m2.chunks_spec(),
            m1.counts() == m2.counts(),
    {
        lemma_partition_unique(
            m1.chunks_spec(),
            m2.chunks_spec(),
            0,
            m1.height_spec() as nat,
        );
    }

    /// Combine the map with a color map to produce a floating-point
    /// image of the same dimensions: pixel by pixel, in row-major
    /// order, the color the map assigns to the stored count.
    pub fn color(&self, map: &ColorMap) -> (img: FImageData)
        requires
            self.wf(),
        ensures
            img.wf(),
            img.w_spec() == self.width_spec(),
            img.h_spec() == self.height_spec(),
            img.pixels_spec().len() == self.counts().len(),
            forall|i: int|
                0 <= i < self.counts().len() ==> #[trigger] img.pixels_spec()[i]
                    == map.get_spec(self.counts()[i] as int),
    {
        let mut v: Vec<crate::rgb::RGB> = Vec::new();
        let n = self.chunks.len();
        let mut ci: usize = 0;
        proof {
            assert(flat_counts(self.chunks@.subrange(0, 0)) =~= Seq::<usize>::empty());
        }
        while ci < n
            invariant
                n == self.chunks@.len(),
                0 <= ci <= n,
                v@.len() == flat_counts(self.chunks@.subrange(0, ci as int)).len(),
                forall|i: int|
                    0 <= i < v@.len() ==> #[trigger] v@[i] == map.get_spec(
                        flat_counts(self.chunks@.subrange(0, ci as int))[i] as int,
                    ),
            decreases n - ci,
        {
            let m = self.chunks[ci].data.len();
            let ghost base = flat_counts(self.chunks@.subrange(0, ci as int));
            let mut j: usize = 0;
            while j < m
                invariant
                    n == self.chunks@.len(),
                    0 <= ci < n,
                    m == self.chunks@[ci as int].data@.len(),
                    0 <= j <= m,
                    base == flat_counts(self.chunks@.subrange(0, ci as int)),
                    v@.len() == base.len() + j,
                    forall|i: int|
                        0 <= i < base.len() ==> #[trigger] v@[i] == map.get_spec(
                            base[i] as int,
                        ),
                    forall|i: int|
                        base.len() <= i < v@.len() ==> #[trigger] v@[i] == map.get_spec(
                            self.chunks@[ci as int].data@[i - base.len()] as int,
                        ),
                decreases m - j,
            {
                let c = map.get(self.chunks[ci].data[j]);
                v.push(c);
                j = j + 1;
            }
            ci = ci + 1;
            proof {
                lemma_flat_counts_snoc(self.chunks@, ci - 1);
                assert(forall|i: int|
                    0 <= i < v@.len() ==> #[trigger] v@[i] == map.get_spec(
                        flat_counts(self.chunks@.subrange(0, ci as int))[i] as int,
                    ));
            }
        }
        proof {
            assert(self.chunks@.subrange(0, n as int) =~= self.chunks@);
            self.lemma_counts_len();
        }
        FImageData::new(self.width, self.height, v)
    }
}

impl IterMap {
    /// The coordinates `(x, y)` of every pixel whose stored count
    /// equals the map's limit, in row-major order: the pixels that were
    /// still alive at the limit, which a re-iteration to a higher limit
    /// must recompute. All other pixels' counts are final.
    pub fn pending_points(&self) -> (r: Vec<(usize, usize)>)
        requires
            self.wf(),
        ensures
            r@.len() == pending_count(self.counts(), self.limit_spec()),
            forall|t: int|
                0 <= t < r@.len() ==> {
                    let p = pending_positions(self.counts(), self.limit_spec())[t];
                    #[trigger] r@[t] == (((p % self.width_spec() as int) as usize, (p
                        / self.width_spec() as int) as usize))
                },
    {
        let limit = self.limit;
        let w = self.width;
        let n = self.chunks.len();
        let ghost gflat = self.counts();
        let mut r: Vec<(usize, usize)> = Vec::new();
        let mut dlen: usize = 0;
        proof {
            self.lemma_counts_len();
            assert(flat_counts(self.chunks@.subrange(0, 0)) =~= Seq::<usize>::empty());
            assert(gflat.subrange(0, 0) =~= Seq::<usize>::empty());
        }
        let mut ci: usize = 0;
        while ci < n
            invariant
                self.wf(),
                gflat == self.counts(),
                gflat.len() == self.width_spec() * self.height_spec(),
                gflat.len() <= usize::MAX,
                limit == self.limit_spec(),
                w == self.width_spec(),
                1 <= w,
                n == self.chunks@.len(),
                0 <= ci <= n,
                dlen <= gflat.len(),
                flat_counts(self.chunks@.subrange(0, ci as int)) == gflat.subrange(
                    0,
                    dlen as int,
                ),
                r@.len() == pending_count(gflat.subrange(0, dlen as int), limit),
                forall|t: int|
                    0 <= t < r@.len() ==> {
                        let p = pending_positions(gflat.subrange(0, dlen as int), limit)[t];
                        #[trigger] r@[t] == (((p % w as int) as usize, (p / w as int) as usize))
                    },
            decreases n - ci,
        {
            let m = self.chunks[ci].data.len();
            let ghost base = dlen as int;
            proof {
                lemma_flat_counts_snoc(self.chunks@, ci as int);
                assert(self.chunks@ =~= self.chunks@.subrange(0, ci + 1) + self.chunks@.subrange(
                    ci + 1,
                    n as int,
                ));
                lemma_flat_counts_concat(
                    self.chunks@.subrange(0, ci + 1),
                    self.chunks@.subrange(ci + 1, n as int),
                );
                assert(gflat =~= gflat.subrange(0, base) + self.chunks@[ci as int].data@
                    + flat_counts(self.chunks@.subrange(ci + 1, n as int)));
                assert forall|u: int| 0 <= u < m implies gflat[base + u] == self.chunks@[
                ci as int].data@[u] by {
                    assert(gflat[base + u] == (gflat.subrange(0, base) + self.chunks@[
                    ci as int].data@ + flat_counts(self.chunks@.subrange(ci + 1, n as int)))[
                    base + u]);
                }
                assert(base + m <= gflat.len());
            }
            let mut j: usize = 0;
            while j < m
                invariant
                    self.wf(),
                    gflat == self.counts(),
                    gflat.len() <= usize::MAX,
                    limit == self.limit_spec(),
                    w == self.width_spec(),
                    1 <= w,
                    n == self.chunks@.len(),
                    0 <= ci < n,
                    m == self.chunks@[ci as int].data@.len(),
                    0 <= j <= m,
                    dlen == base + j,
                    base + m <= gflat.len(),
                    forall|u: int|
                        0 <= u < m ==> #[trigger] gflat[base + u] == self.chunks@[
                        ci as int].data@[u],
                    r@.len() == pending_count(gflat.subrange(0, dlen as int), limit),
                    forall|t: int|
                        0 <= t < r@.len() ==> {
                            let p = pending_positions(gflat.subrange(0, dlen as int), limit)[t];
                            #[trigger] r@[t] == (((p % w as int) as usize, (p / w as int)
                                as usize))
                        },
                decreases m - j,
            {
                let ghost prevflat = gflat.subrange(0, dlen as int);
                let ghost prev_r = r@;
                proof {
                    assert(gflat.subrange(0, dlen + 1) =~= prevflat.push(gflat[dlen as int]));
                    lemma_pending_snoc(prevflat, gflat[dlen as int], limit);
                    assert(gflat[dlen as int] == self.chunks@[ci as int].data@[j as int]);
                }
                if self.chunks[ci].data[j] == limit {
                    let x = dlen % w;
                    let y = dlen / w;
                    r.push((x, y));
                }
                dlen = dlen + 1;
                j = j + 1;
                proof {
                    assert forall|t: int| 0 <= t < r@.len() implies {
                        let p = pending_positions(gflat.subrange(0, dlen as int), limit)[t];
                        #[trigger] r@[t] == (((p % w as int) as usize, (p / w as int) as usize))
                    } by {
                        lemma_positions_spec(prevflat, limit);
                        let prevpos = pending_positions(prevflat, limit);
                        let tail = if gflat[dlen - 1] == limit {
                            seq![(dlen - 1) as int]
                        } else {
                            Seq::<int>::empty()
                        };
                        assert(pending_positions(gflat.subrange(0, dlen as int), limit)
                            == prevpos + tail);
                        if t < prev_r.len() {
                            assert(r@[t] == prev_r[t]);
                            assert((prevpos + tail)[t] == prevpos[t]);
                        } else {
                            assert(gflat[dlen - 1] == limit);
                            assert((prevpos + tail)[t] == tail[t - prevpos.len()]);
                            assert((prevpos + tail)[t] == dlen - 1);
                        }
                    }
                }
            }
            ci = ci + 1;
            proof {
                assert(flat_counts(self.chunks@.subrange(0, ci as int)) =~= gflat.subrange(
                    0,
                    dlen as int,
                ));
            }
        }
        proof {
            assert(self.chunks@.subrange(0, n as int) =~= self.chunks@);
            assert(gflat.subrange(0, gflat.len() as int) =~= gflat);
        }
        r
    }

    /// Extend the map in place to a higher iteration limit, given the
    /// freshly computed counts for exactly the pending pixels (in the
    /// order `pending_points` lists them). A call with a limit no
    /// higher than the current one changes nothing. Otherwise it
    /// succeeds exactly when one fresh count, at most `new_limit`, was
    /// supplied per pending pixel; the pending pixels take their fresh
    /// counts and every other pixel keeps its value.
    pub fn reiterate_with(&mut self, new_limit: usize, fresh: &Vec<usize>) -> (r: Result<
        (),
        crate::EngineError,
    >)
        requires
            old(self).wf(),
        ensures
            final(self).wf(),
            final(self).width_spec() == old(self).width_spec(),
            final(self).height_spec() == old(self).height_spec(),
            new_limit <= old(self).limit_spec() ==> r is Ok && *final(self) == *old(self),
            new_limit > old(self).limit_spec() ==> match r {
                Ok(_) => {
                    &&& fresh@.len() == pending_count(old(self).counts(), old(self).limit_spec())
                    &&& (forall|t: int|
                        0 <= t < fresh@.len() ==> #[trigger] fresh@[t] <= new_limit)
                    &&& final(self).limit_spec() == new_limit
                    &&& final(self).counts() == merged_counts(
                        old(self).counts(),
                        fresh@,
                        old(self).limit_spec(),
                    )
                },
                Err(e) => {
                    &&& e == crate::EngineError::BadFreshCounts
                    &&& *final(self) == *old(self)
                    &&& !({
                        &&& fresh@.len() == pending_count(
                            old(self).counts(),
                            old(self).limit_spec(),
                        )
                        &&& (forall|t: int|
                            0 <= t < fresh@.len() ==> #[trigger] fresh@[t] <= new_limit)
                    })
                },
            },
    {
        if new_limit <= self.limit {
            return Ok(());
        }
        let limit = self.limit;
        let n = self.chunks.len();
        let ghost gflat = self.counts();
        proof {
            self.lemma_counts_len();
            assert(flat_counts(self.chunks@.subrange(0, 0)) =~= Seq::<usize>::empty());
        }
        // First pass: how many pixels are pending in all?
        let mut total: usize = 0;
        let mut ci: usize = 0;
        while ci < n
            invariant
                self.wf(),
                gflat == self.counts(),
                gflat.len() <= usize::MAX,
                limit == self.limit_spec(),
                n == self.chunks@.len(),
                0 <= ci <= n,
                total == pending_count(flat_counts(self.chunks@.subrange(0, ci as int)), limit),
            decreases n - ci,
        {
            proof {
                lemma_flat_counts_snoc(self.chunks@, ci as int);
                lemma_pending_concat(
                    flat_counts(self.chunks@.subrange(0, ci as int)),
                    self.chunks@[ci as int].data@,
                    limit,
                );
                assert(self.chunks@ =~= self.chunks@.subrange(0, ci + 1) + self.chunks@.subrange(
                    ci + 1,
                    n as int,
                ));
                lemma_flat_counts_concat(
                    self.chunks@.subrange(0, ci + 1),
                    self.chunks@.subrange(ci + 1, n as int),
                );
                lemma_pending_concat(
                    flat_counts(self.chunks@.subrange(0, ci + 1)),
                    flat_counts(self.chunks@.subrange(ci + 1, n as int)),
                    limit,
                );
                lemma_pending_le_len(gflat, limit);
            }
            let c = count_pending(&self.chunks[ci].data, limit);
            total = total + c;
            ci = ci + 1;
        }
        proof {
            assert(self.chunks@.subrange(0, n as int) =~= self.chunks@);
        }
        if fresh.len() != total {
            return Err(crate::EngineError::BadFreshCounts);
        }
        if !all_at_most(fresh, new_limit) {
            return Err(crate::EngineError::BadFreshCounts);
        }
        // Second pass: rebuild every chunk, handing fresh values to the
        // pending pixels in row-major order.
        let flen = fresh.len();
        let mut out: Vec<IterMapChunk> = Vec::new();
        let mut k: usize = 0;
        let mut ci: usize = 0;
        while ci < n
            invariant
                self.wf(),
                gflat == self.counts(),
                gflat.len() <= usize::MAX,
                limit == self.limit_spec(),
                limit < new_limit,
                n == self.chunks@.len(),
                0 <= ci <= n,
                flen == fresh@.len(),
                fresh@.len() == pending_count(gflat, limit),
                forall|t: int| 0 <= t < fresh@.len() ==> #[trigger] fresh@[t] <= new_limit,
                k == pending_count(flat_counts(self.chunks@.subrange(0, ci as int)), limit),
                out@.len() == ci,
                forall|t: int|
                    0 <= t < ci ==> (#[trigger] out@[t]).y_start == self.chunks@[t].y_start
                        && out@[t].n_rows == self.chunks@[t].n_rows && out@[t].data@.len()
                        == self.chunks@[t].data@.len(),
                chunks_data_ok(out@, self.width_spec() as nat, new_limit as nat),
                flat_counts(out@) == merged_counts_from(
                    flat_counts(self.chunks@.subrange(0, ci as int)),
                    fresh@,
                    0,
                    limit,
                ),
            decreases n - ci,
        {
            let ghost pre = flat_counts(self.chunks@.subrange(0, ci as int));
            proof {
                lemma_flat_counts_snoc(self.chunks@, ci as int);
                lemma_pending_concat(pre, self.chunks@[ci as int].data@, limit);
                assert(self.chunks@ =~= self.chunks@.subrange(0, ci + 1) + self.chunks@.subrange(
                    ci + 1,
                    n as int,
                ));
                lemma_flat_counts_concat(
                    self.chunks@.subrange(0, ci + 1),
                    self.chunks@.subrange(ci + 1, n as int),
                );
                lemma_pending_concat(
                    flat_counts(self.chunks@.subrange(0, ci + 1)),
                    flat_counts(self.chunks@.subrange(ci + 1, n as int)),
                    limit,
                );
            }
            let nd = merge_chunk_data(&self.chunks[ci].data, limit, fresh, k);
            let c = count_pending(&self.chunks[ci].data, limit);
            let ghost old_out = out@;
            out.push(
                IterMapChunk {
                    y_start: self.chunks[ci].y_start,
                    n_rows: self.chunks[ci].n_rows,
                    data: nd,
                },
            );
            k = k + c;
            ci = ci + 1;
            proof {
                lemma_flat_counts_push(
                    old_out,
                    IterMapChunk {
                        y_start: self.chunks@[ci - 1].y_start,
                        n_rows: self.chunks@[ci - 1].n_rows,
                        data: nd,
                    },
                );
                lemma_merged_concat(pre, self.chunks@[ci - 1].data@, fresh@, 0, limit);
                assert(flat_counts(out@) =~= merged_counts_from(
                    flat_counts(self.chunks@.subrange(0, ci as int)),
                    fresh@,
                    0,
                    limit,
                ));
                assert(chunk_data_ok(out@[ci - 1], self.width_spec() as nat, new_limit as nat))
                    by {
                    assert(chunk_data_ok(
                        self.chunks@[ci - 1],
                        self.width_spec() as nat,
                        self.limit_spec() as nat,
                    ));
                    assert forall|u: int| 0 <= u < nd@.len() implies nd@[u] <= new_limit by {
                        if self.chunks@[ci - 1].data@[u] == limit {
                            lemma_pending_before_lt(self.chunks@[ci - 1].data@, limit, u);
                        }
                    }
                }
            }
        }
        proof {
            assert(self.chunks@.subrange(0, n as int) =~= self.chunks@);
            assert(chunk_spans(out@) =~= chunk_spans(self.chunks@));
        }
        self.chunks = out;
        self.limit = new_limit;
        Ok(())
    }
}

/// Re-iteration monotonicity: merging fresh counts into a map leaves
/// every count that was below the limit unchanged, and gives the
/// `t`-th count that sat exactly at the limit the `t`-th fresh value.
pub proof fn lemma_merge_monotone(s: Seq<usize>, fresh: Seq<usize>, limit: usize)
    ensures
        merged_counts(s, fresh, limit).len() == s.len(),
        forall|i: int|
            0 <= i < s.len() && s[i] != limit ==> #[trigger] merged_counts(s, fresh, limit)[i]
                == s[i],
        forall|i: int|
            0 <= i < s.len() && s[i] == limit ==> #[trigger] merged_counts(s, fresh, limit)[i]
                == fresh[pending_before(s, limit, i) as int],
{
}

/// Re-iteration equivalence: if a full recomputation at the higher
/// limit agrees with the old map on every pixel that had already
/// diverged (a diverged pixel's count does not depend on the limit),
/// and the fresh counts are the full recomputation's values at the
/// pending pixels, then merging reproduces the full recomputation
/// exactly: the optimization avoids work, not results.
pub proof fn lemma_reiterate_matches_full(
    old_counts: Seq<usize>,
    full: Seq<usize>,
    fresh: Seq<usize>,
    limit: usize,
)
    requires
        full.len() == old_counts.len(),
        forall|i: int|
            0 <= i < old_counts.len() && old_counts[i] != limit ==> #[trigger] full[i]
                == old_counts[i],
        fresh.len() == pending_count(old_counts, limit),
        forall|t: int|
            0 <= t < fresh.len() ==> #[trigger] fresh[t] == full[pending_positions(
                old_counts,
                limit,
            )[t]],
    ensures
        merged_counts(old_counts, fresh, limit) == full,
{
    lemma_positions_spec(old_counts, limit);
    let m = merged_counts(old_counts, fresh, limit);
    assert forall|i: int| 0 <= i < m.len() implies m[i] == full[i] by {
        if old_counts[i] == limit {
            lemma_pending_before_lt(old_counts, limit, i);
            let t = pending_before(old_counts, limit, i) as int;
            assert(pending_positions(old_counts, limit)[t] == i);
            assert(fresh[t] == full[i]);
        }
    }
    assert(m =~= full);
}

/// What the dispatch loop should do next.
pub enum DispatchStep {
    /// A worker slot is free and work remains: start this chunk.
    Dispatch(ChunkRecipe),
    /// No slot is free, or no work is left while some is still in
    /// flight: block for the next completed chunk.
    Await,
    /// Nothing pending and nothing in flight: all chunks are done.
    Finished,
}

/// The bounded worker-pool discipline of the engine: at most a fixed
/// worker count of chunks is ever in flight; a chunk is dispatched
/// whenever a slot is free and work remains; the loop blocks for a
/// completion exactly when it cannot dispatch and work is in flight,
/// and finishes exactly when nothing is pending or in flight. The
/// caller runs the workers and reports each completion.
pub struct Dispatcher {
    jobs: Vec<ChunkRecipe>,
    active: usize,
    workers: usize,
}

impl Dispatcher {
    /// The chunks not yet dispatched.
    pub closed spec fn jobs_spec(self) -> Seq<ChunkRecipe> {
        self.jobs@
    }

    /// How many chunks are in flight.
    pub closed spec fn active_spec(self) -> usize {
        self.active
    }

    /// The worker-slot bound.
    pub closed spec fn workers_spec(self) -> usize {
        self.workers
    }

    /// The discipline's invariant: at least one slot, never more
    /// chunks in flight than slots.
    pub open spec fn wf(self) -> bool {
        1 <= self.workers_spec() && self.active_spec() <= self.workers_spec()
    }

    /// Set up a dispatch of these chunks over this many worker slots.
    pub fn new(jobs: Vec<ChunkRecipe>, workers: usize) -> (d: Dispatcher)
        requires
            1 <= workers,
        ensures
            d.wf(),
            d.jobs_spec() == jobs@,
            d.active_spec() == 0,
            d.workers_spec() == workers,
    {
        Dispatcher { jobs, active: 0, workers }
    }

    /// Decide the next step and account for it. A dispatch hands out
    /// the last pending chunk and takes a slot; awaiting and finishing
    /// change nothing.
    pub fn next(&mut self) -> (s: DispatchStep)
        requires
            old(self).wf(),
        ensures
            final(self).wf(),
            final(self).workers_spec() == old(self).workers_spec(),
            match s {
                DispatchStep::Dispatch(job) => {
                    &&& old(self).active_spec() < old(self).workers_spec()
                    &&& old(self).jobs_spec().len() > 0
                    &&& job == old(self).jobs_spec().last()
                    &&& final(self).jobs_spec() == old(self).jobs_spec().drop_last()
                    &&& final(self).active_spec() == old(self).active_spec() + 1
                },
                DispatchStep::Await => {
                    &&& old(self).active_spec() > 0
                    &&& (old(self).active_spec() == old(self).workers_spec() || old(
                        self,
                    ).jobs_spec().len() == 0)
                    &&& *final(self) == *old(self)
                },
                DispatchStep::Finished => {
                    &&& old(self).active_spec() == 0
                    &&& old(self).jobs_spec().len() == 0
                    &&& *final(self) == *old(self)
                },
            },
    {
        if self.active < self.workers && self.jobs.len() > 0 {
            let job = self.jobs.pop().unwrap();
            self.active = self.active + 1;
            DispatchStep::Dispatch(job)
        } else if self.active > 0 {
            DispatchStep::Await
        } else {
            DispatchStep::Finished
        }
    }

    /// Record that one in-flight chunk completed, freeing its slot.
    /// Reports whether anything was in flight at all.
    pub fn completed(&mut self) -> (ok: bool)
        requires
            old(self).wf(),
        ensures
            final(self).wf(),
            final(self).workers_spec() == old(self).workers_spec(),
            final(self).jobs_spec() == old(self).jobs_spec(),
            ok == (old(self).active_spec() > 0),
            ok ==> final(self).active_spec() == old(self).active_spec() - 1,
            !ok ==> *final(self) == *old(self),
    {
        if self.active > 0 {
            self.active = self.active - 1;
            true
        } else {
            false
        }
    }
}

/// Relies on num_cpus::get_physical: the machine's physical core
/// count, which is always at least 1.
#[verifier::external_body]
fn physical_core_count() -> (n: usize)
    ensures
        1 <= n,
{
    num_cpus::get_physical()
}

/// Split `ypix` rows into chunks for this machine: the worker count
/// defaults to the physical core count, queried once here.
pub fn plan_chunks_for_machine(ypix: usize) -> (r: Vec<ChunkRecipe>)
    requires
        1 <= ypix,
    ensures
        spans_partition(recipe_spans(r@), 0, ypix as nat),
        r@.len() >= 1,
{
    let n = physical_core_count();
    let half = usize::MAX / 2;
    let t = if n <= half {
        n
    } else {
        half
    };
    plan_chunks(ypix, t)
}

} // verus!
