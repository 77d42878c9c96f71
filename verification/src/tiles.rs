//! Screen tiling for the parallel compositor: which splats touch which
//! 16x16 tile, laid out as one index list per tile.
use vstd::prelude::*;
use vstd::arithmetic::div_mod::{lemma_fundamental_div_mod, lemma_fundamental_div_mod_converse};

verus! {

/// Tile width in pixels.
pub const TILE_W: i32 = 16;

/// Tile height in pixels.
pub const TILE_H: i32 = 16;

/// Largest framebuffer side that the tile arithmetic accepts: the tile
/// count is `extent + (TILE_W - 1)` divided by `TILE_W` in `i32`, which
/// fits up to `i32::MAX - 15`.
pub const MAX_EXTENT: u32 = 0x7FFF_FFF0;

/// Inclusive pixel rectangle `[x0, x1] x [y0, y1]` (a splat's footprint).
#[derive(Clone, Copy, Debug, PartialEq, Eq)]
pub struct PixelRect {
    pub x0: i32,
    pub y0: i32,
    pub x1: i32,
    pub y1: i32,
}

/// Integer division rounding toward zero, as `/` does on `i32`.
pub open spec fn trunc_div(x: int, d: int) -> int {
    if x >= 0 {
        x / d
    } else {
        -((-x) / d)
    }
}

/// Number of tiles needed to cover `extent` pixels.
pub open spec fn tiles_across(extent: int) -> int {
    (extent + 15) / 16
}

/// First tile column that a rectangle reaches (clamped at 0).
pub open spec fn span_x0(r: PixelRect) -> int {
    let c = trunc_div(r.x0 as int, 16);
    if c < 0 {
        0
    } else {
        c
    }
}

/// First tile row that a rectangle reaches (clamped at 0).
pub open spec fn span_y0(r: PixelRect) -> int {
    let c = trunc_div(r.y0 as int, 16);
    if c < 0 {
        0
    } else {
        c
    }
}

/// Last tile column that a rectangle reaches (clamped to the grid).
pub open spec fn span_x1(r: PixelRect, ntx: int) -> int {
    let c = trunc_div(r.x1 as int, 16);
    if c > ntx - 1 {
        ntx - 1
    } else {
        c
    }
}

/// Last tile row that a rectangle reaches (clamped to the grid).
pub open spec fn span_y1(r: PixelRect, nty: int) -> int {
    let c = trunc_div(r.y1 as int, 16);
    if c > nty - 1 {
        nty - 1
    } else {
        c
    }
}

/// Column of tile `t` in a grid `ntx` tiles wide.
pub open spec fn tile_col(t: int, ntx: int) -> int {
    t % ntx
}

/// Row of tile `t` in a grid `ntx` tiles wide.
pub open spec fn tile_row(t: int, ntx: int) -> int {
    t / ntx
}

/// The rectangle is binned into tile `t` of an `ntx` x `nty` grid.
pub open spec fn covers_tile(r: PixelRect, ntx: int, nty: int, t: int) -> bool {
    &&& span_x0(r) <= tile_col(t, ntx) <= span_x1(r, ntx)
    &&& span_y0(r) <= tile_row(t, ntx) <= span_y1(r, nty)
}

/// Number of tiles the rectangle is binned into.
pub open spec fn span_area(r: PixelRect, ntx: int, nty: int) -> int {
    if span_x0(r) <= span_x1(r, ntx) && span_y0(r) <= span_y1(r, nty) {
        (span_x1(r, ntx) - span_x0(r) + 1) * (span_y1(r, nty) - span_y0(r) + 1)
    } else {
        0
    }
}

/// Number of (splat, tile) entries of the first `k` rectangles.
pub open spec fn overlap_total(rects: Seq<PixelRect>, ntx: int, nty: int, k: int) -> int
    decreases k,
{
    if k <= 0 {
        0
    } else {
        overlap_total(rects, ntx, nty, k - 1) + span_area(rects[k - 1], ntx, nty)
    }
}

/// Indices, in increasing order, of the first `k` rectangles binned into
/// tile `t`.
pub open spec fn bin_list(rects: Seq<PixelRect>, ntx: int, nty: int, t: int, k: int) -> Seq<u32>
    decreases k,
{
    if k <= 0 {
        seq![]
    } else {
        bin_list(rects, ntx, nty, t, k - 1) + if covers_tile(rects[k - 1], ntx, nty, t) {
            seq![(k - 1) as u32]
        } else {
            seq![]
        }
    }
}

/// The mathematical content of [`TileBins`].
pub struct TileBinsView {
    pub num_tiles_x: int,
    pub num_tiles_y: int,
    pub offsets: Seq<u32>,
    pub splat_indices: Seq<u32>,
}

/// `b` holds, for a `width` x `height` framebuffer, the list of every tile:
/// the indices of the rectangles binned into it, in increasing order.
pub open spec fn bins_match(b: TileBinsView, rects: Seq<PixelRect>, width: int, height: int) -> bool {
    let ntx = tiles_across(width);
    let nty = tiles_across(height);
    let nt = ntx * nty;
    &&& b.num_tiles_x == ntx
    &&& b.num_tiles_y == nty
    &&& b.offsets.len() == nt + 1
    &&& b.offsets[0] == 0
    &&& b.offsets[nt] == b.splat_indices.len()
    &&& forall|t: int|
        0 <= t < nt ==> #[trigger] b.offsets[t + 1] == b.offsets[t] + bin_list(
            rects,
            ntx,
            nty,
            t,
            rects.len() as int,
        ).len()
    &&& forall|t: int|
        0 <= t < nt ==> b.splat_indices.subrange(b.offsets[t] as int, b.offsets[t + 1] as int)
            == #[trigger] bin_list(rects, ntx, nty, t, rects.len() as int)
}

/// Per-tile splat lists in compressed form: the splats of tile `t` are
/// `splat_indices[offsets[t] .. offsets[t + 1]]`, tiles numbered row-major.
pub struct TileBins {
    pub num_tiles_x: i32,
    pub num_tiles_y: i32,
    pub offsets: Vec<u32>,
    pub splat_indices: Vec<u32>,
    cursor: Vec<u32>,
}

impl View for TileBins {
    type V = TileBinsView;

    closed spec fn view(&self) -> TileBinsView {
        TileBinsView {
            num_tiles_x: self.num_tiles_x as int,
            num_tiles_y: self.num_tiles_y as int,
            offsets: self.offsets@,
            splat_indices: self.splat_indices@,
        }
    }
}

impl Default for TileBins {
    /// Empty bins (see [`TileBins::new`]).
    fn default() -> (b: Self)
        ensures
            b.is_empty(),
    {
        TileBins::new()
    }
}

impl TileBins {
    /// No tiles and no lists.
    pub open spec fn is_empty(&self) -> bool {
        &&& self@.num_tiles_x == 0
        &&& self@.num_tiles_y == 0
        &&& self@.offsets.len() == 0
        &&& self@.splat_indices.len() == 0
    }

    /// Empty bins.
    pub fn new() -> (b: Self)
        ensures
            b.is_empty(),
    {
        TileBins {
            num_tiles_x: 0,
            num_tiles_y: 0,
            offsets: Vec::new(),
            splat_indices: Vec::new(),
            cursor: Vec::new(),
        }
    }

    /// Number of tiles of the grid.
    pub fn num_tiles(&self) -> (n: usize)
        requires
            0 <= self@.num_tiles_x * self@.num_tiles_y <= usize::MAX,
            0 <= self@.num_tiles_x,
            0 <= self@.num_tiles_y,
        ensures
            n == self@.num_tiles_x * self@.num_tiles_y,
    {
        proof {
            vstd::arithmetic::mul::lemma_mul_nonnegative(
                self.num_tiles_x as int,
                self.num_tiles_y as int,
            );
        }
        (self.num_tiles_x as usize) * (self.num_tiles_y as usize)
    }
}

// ---------------------------------------------------------------------------
// Grid coordinates.
proof fn lemma_tile_coords(ntx: int, t: int)
    requires
        ntx > 0,
        t >= 0,
    ensures
        t == tile_row(t, ntx) * ntx + tile_col(t, ntx),
        0 <= tile_col(t, ntx) < ntx,
        0 <= tile_row(t, ntx),
{
    lemma_fundamental_div_mod(t, ntx);
    assert(tile_row(t, ntx) * ntx == ntx * tile_row(t, ntx)) by (nonlinear_arith);
    vstd::arithmetic::div_mod::lemma_div_pos_is_pos(t, ntx);
}

proof fn lemma_tile_of(ntx: int, col: int, row: int)
    requires
        ntx > 0,
        0 <= col < ntx,
        0 <= row,
    ensures
        tile_col(row * ntx + col, ntx) == col,
        tile_row(row * ntx + col, ntx) == row,
        row * ntx + col >= 0,
{
    lemma_fundamental_div_mod_converse(row * ntx + col, ntx, row, col);
    assert(row * ntx >= 0) by (nonlinear_arith)
        requires
            row >= 0,
            ntx > 0,
    ;
}

/// A tile lies in the grid exactly when its row does.
proof fn lemma_tile_in_grid(ntx: int, nty: int, t: int)
    requires
        ntx > 0,
        nty >= 0,
        t >= 0,
    ensures
        (t < ntx * nty) <==> (tile_row(t, ntx) < nty),
{
    lemma_tile_coords(ntx, t);
    let row = tile_row(t, ntx);
    let col = tile_col(t, ntx);
    assert((row * ntx + col < ntx * nty) <==> (row < nty)) by (nonlinear_arith)
        requires
            0 <= col < ntx,
            0 <= row,
            nty >= 0,
    ;
}

// ---------------------------------------------------------------------------
// Facts about the lists.
proof fn lemma_bin_list_mono(rects: Seq<PixelRect>, ntx: int, nty: int, t: int, k1: int, k2: int)
    requires
        0 <= k1 <= k2,
    ensures
        bin_list(rects, ntx, nty, t, k1).len() <= bin_list(rects, ntx, nty, t, k2).len(),
    decreases k2,
{
    if k2 > k1 {
        lemma_bin_list_mono(rects, ntx, nty, t, k1, k2 - 1);
    }
}

/// A tile's list is never longer than the number of entries of all tiles.
proof fn lemma_bin_list_le_total(rects: Seq<PixelRect>, ntx: int, nty: int, t: int, k: int)
    requires
        0 <= k,
        ntx > 0,
        t >= 0,
    ensures
        bin_list(rects, ntx, nty, t, k).len() <= overlap_total(rects, ntx, nty, k),
        0 <= overlap_total(rects, ntx, nty, k),
    decreases k,
{
    if k > 0 {
        lemma_bin_list_le_total(rects, ntx, nty, t, k - 1);
        let r = rects[k - 1];
        let w = span_x1(r, ntx) - span_x0(r) + 1;
        let h = span_y1(r, nty) - span_y0(r) + 1;
        if span_x0(r) <= span_x1(r, ntx) && span_y0(r) <= span_y1(r, nty) {
            assert(w * h >= 1) by (nonlinear_arith)
                requires
                    w >= 1,
                    h >= 1,
            ;
        }
    }
}

/// Number of tiles below `t_end` that the rectangle is binned into.
spec fn covered_below(r: PixelRect, ntx: int, nty: int, t_end: int) -> int
    decreases t_end,
{
    if t_end <= 0 {
        0
    } else {
        covered_below(r, ntx, nty, t_end - 1) + if covers_tile(r, ntx, nty, t_end - 1) {
            1int
        } else {
            0int
        }
    }
}

/// Sum of the list lengths of the tiles below `t_end`.
spec fn entries_below(rects: Seq<PixelRect>, ntx: int, nty: int, k: int, t_end: int) -> int
    decreases t_end,
{
    if t_end <= 0 {
        0
    } else {
        entries_below(rects, ntx, nty, k, t_end - 1) + bin_list(
            rects,
            ntx,
            nty,
            t_end - 1,
            k,
        ).len()
    }
}

proof fn lemma_entries_step(rects: Seq<PixelRect>, ntx: int, nty: int, k: int, t_end: int)
    requires
        0 <= k,
        0 <= t_end,
    ensures
        entries_below(rects, ntx, nty, k + 1, t_end) == entries_below(rects, ntx, nty, k, t_end)
            + covered_below(rects[k], ntx, nty, t_end),
    decreases t_end,
{
    if t_end > 0 {
        lemma_entries_step(rects, ntx, nty, k, t_end - 1);
    }
}

proof fn lemma_entries_mono(rects: Seq<PixelRect>, ntx: int, nty: int, k: int, t1: int, t2: int)
    requires
        0 <= t1 <= t2,
    ensures
        entries_below(rects, ntx, nty, k, t1) <= entries_below(rects, ntx, nty, k, t2),
    decreases t2,
{
    if t2 > t1 {
        lemma_entries_mono(rects, ntx, nty, k, t1, t2 - 1);
    }
}

/// Within the tiles of rows `[0, row)` plus the first `col` tiles of row
/// `row`, the rectangle covers its span clipped to that region.
proof fn lemma_covered_rows(r: PixelRect, ntx: int, nty: int, row: int, col: int)
    requires
        ntx > 0,
        0 <= row,
        0 <= col <= ntx,
        0 <= span_x0(r),
        span_x1(r, ntx) < ntx,
    ensures
        covered_below(r, ntx, nty, row * ntx + col) == covered_rows(r, ntx, nty, row) + if span_y0(
            r,
        ) <= row <= span_y1(r, nty) {
            clip_count(span_x0(r), span_x1(r, ntx), col)
        } else {
            0
        },
    decreases row, col,
{
    if col > 0 {
        lemma_covered_rows(r, ntx, nty, row, col - 1);
        lemma_tile_of(ntx, col - 1, row);
        assert(row * ntx + col - 1 == row * ntx + (col - 1));
    } else if row > 0 {
        lemma_covered_rows(r, ntx, nty, row - 1, ntx);
        assert((row - 1) * ntx + ntx == row * ntx) by (nonlinear_arith);
    } else {
        assert(row * ntx + col == 0) by (nonlinear_arith)
            requires
                row == 0,
                col == 0,
        ;
    }
}

/// Number of integers `c` in `[lo, hi]` with `c < col`.
spec fn clip_count(lo: int, hi: int, col: int) -> int {
    let top = if hi + 1 < col {
        hi + 1
    } else {
        col
    };
    if top > lo {
        top - lo
    } else {
        0
    }
}

/// Number of covered tiles in rows `[0, row)`.
spec fn covered_rows(r: PixelRect, ntx: int, nty: int, row: int) -> int
    decreases row,
{
    if row <= 0 {
        0
    } else {
        covered_rows(r, ntx, nty, row - 1) + if span_y0(r) <= row - 1 <= span_y1(r, nty) {
            clip_count(span_x0(r), span_x1(r, ntx), ntx)
        } else {
            0
        }
    }
}

proof fn lemma_covered_rows_total(r: PixelRect, ntx: int, nty: int, row: int)
    requires
        ntx > 0,
        0 <= row <= nty,
        0 <= span_x0(r),
        span_x1(r, ntx) < ntx,
        0 <= span_y0(r),
        span_y1(r, nty) < nty,
    ensures
        covered_rows(r, ntx, nty, row) == if span_x0(r) <= span_x1(r, ntx) && span_y0(r)
            <= span_y1(r, nty) {
            (span_x1(r, ntx) - span_x0(r) + 1) * (clip_count(span_y0(r), span_y1(r, nty), row))
        } else {
            0
        },
    decreases row,
{
    if row > 0 {
        lemma_covered_rows_total(r, ntx, nty, row - 1);
        let w = span_x1(r, ntx) - span_x0(r) + 1;
        let a = clip_count(span_y0(r), span_y1(r, nty), row - 1);
        let b = clip_count(span_y0(r), span_y1(r, nty), row);
        if span_x0(r) <= span_x1(r, ntx) && span_y0(r) <= span_y1(r, nty) {
            assert(w * a + (if span_y0(r) <= row - 1 <= span_y1(r, nty) {
                w
            } else {
                0
            }) == w * b) by (nonlinear_arith)
                requires
                    b == a + (if span_y0(r) <= row - 1 <= span_y1(r, nty) {
                        1int
                    } else {
                        0
                    }),
            ;
        }
    }
}

/// The rectangle is binned into exactly `span_area` tiles of the grid.
proof fn lemma_covered_is_area(r: PixelRect, ntx: int, nty: int)
    requires
        ntx > 0,
        nty > 0,
    ensures
        covered_below(r, ntx, nty, ntx * nty) == span_area(r, ntx, nty),
{
    lemma_covered_rows(r, ntx, nty, nty, 0);
    lemma_covered_rows_total(r, ntx, nty, nty);
    assert(nty * ntx + 0 == ntx * nty) by (nonlinear_arith);
}

/// Every entry is counted once per tile: the lists of all tiles together
/// hold `overlap_total` entries.
proof fn lemma_entries_total(rects: Seq<PixelRect>, ntx: int, nty: int, k: int)
    requires
        0 <= k <= rects.len(),
        ntx > 0,
        nty > 0,
    ensures
        entries_below(rects, ntx, nty, k, ntx * nty) == overlap_total(rects, ntx, nty, k),
    decreases k,
{
    if k > 0 {
        lemma_entries_total(rects, ntx, nty, k - 1);
        lemma_entries_step(rects, ntx, nty, k - 1, ntx * nty);
        lemma_covered_is_area(rects[k - 1], ntx, nty);
    } else {
        lemma_entries_zero(rects, ntx, nty, ntx * nty);
    }
}

proof fn lemma_entries_zero(rects: Seq<PixelRect>, ntx: int, nty: int, t_end: int)
    ensures
        entries_below(rects, ntx, nty, 0, t_end) == 0,
    decreases t_end,
{
    if t_end > 0 {
        lemma_entries_zero(rects, ntx, nty, t_end - 1);
    }
}

// ---------------------------------------------------------------------------
// Executable binning.

/// The clamped tile span `(tx0, ty0, tx1, ty1)` of a rectangle.
fn tile_span(r: &PixelRect, ntx: i32, nty: i32) -> (s: (i32, i32, i32, i32))
    requires
        0 <= ntx,
        0 <= nty,
    ensures
        s.0 == span_x0(*r),
        s.1 == span_y0(*r),
        s.2 == span_x1(*r, ntx as int),
        s.3 == span_y1(*r, nty as int),
{
    let a = r.x0 / TILE_W;
    let b = r.y0 / TILE_H;
    let c = r.x1 / TILE_W;
    let d = r.y1 / TILE_H;
    let tx0 = if a < 0 {
        0
    } else {
        a
    };
    let ty0 = if b < 0 {
        0
    } else {
        b
    };
    let tx1 = if c > ntx - 1 {
        ntx - 1
    } else {
        c
    };
    let ty1 = if d > nty - 1 {
        nty - 1
    } else {
        d
    };
    (tx0, ty0, tx1, ty1)
}

/// Tile `t` lies in the rows before `ty`, or in row `ty` before column `tx`.
spec fn visited_before(t: int, ntx: int, tx: int, ty: int) -> bool {
    tile_row(t, ntx) < ty || (tile_row(t, ntx) == ty && tile_col(t, ntx) < tx)
}

/// Adds one to the count slot `t + 1` of every tile `t` the span covers.
fn add_span_counts(
    offsets: &mut Vec<u32>,
    s: (i32, i32, i32, i32),
    ntx: i32,
    nty: i32,
    Ghost(r): Ghost<PixelRect>,
)
    requires
        ntx > 0,
        nty > 0,
        ntx * nty <= i32::MAX,
        s.0 == span_x0(r),
        s.1 == span_y0(r),
        s.2 == span_x1(r, ntx as int),
        s.3 == span_y1(r, nty as int),
        s.0 <= s.2,
        s.1 <= s.3,
        old(offsets)@.len() == ntx * nty + 1,
        forall|t: int|
            0 <= t < ntx * nty ==> #[trigger] old(offsets)@[t + 1] + (if covers_tile(
                r,
                ntx as int,
                nty as int,
                t,
            ) {
                1int
            } else {
                0int
            }) <= u32::MAX,
    ensures
        final(offsets)@.len() == old(offsets)@.len(),
        final(offsets)@[0] == old(offsets)@[0],
        forall|t: int|
            0 <= t < ntx * nty ==> #[trigger] final(offsets)@[t + 1] == old(offsets)@[t + 1] + (
            if covers_tile(r, ntx as int, nty as int, t) {
                1int
            } else {
                0int
            }),
{
    let ghost orig = offsets@;
    let ghost nt = ntx * nty;
    let mut ty = s.1;
    while ty <= s.3
        invariant
            ntx > 0,
            nty > 0,
            nt == ntx * nty,
            nt <= i32::MAX,
            s.0 == span_x0(r),
            s.1 == span_y0(r),
            s.2 == span_x1(r, ntx as int),
            s.3 == span_y1(r, nty as int),
            0 <= s.0 <= s.2 < ntx,
            0 <= s.1 <= s.3 < nty,
            s.1 <= ty <= s.3 + 1,
            offsets@.len() == nt + 1,
            offsets@[0] == orig[0],
            forall|t: int|
                0 <= t < nt ==> #[trigger] orig[t + 1] + (if covers_tile(
                    r,
                    ntx as int,
                    nty as int,
                    t,
                ) {
                    1int
                } else {
                    0int
                }) <= u32::MAX,
            forall|t: int|
                0 <= t < nt ==> #[trigger] offsets@[t + 1] == orig[t + 1] + (if covers_tile(
                    r,
                    ntx as int,
                    nty as int,
                    t,
                ) && tile_row(t, ntx as int) < ty {
                    1int
                } else {
                    0int
                }),
        decreases s.3 + 1 - ty,
    {
        proof {
            assert(ty * ntx <= (nty - 1) * ntx) by (nonlinear_arith)
                requires
                    ty <= nty - 1,
                    ntx > 0,
            ;
            assert((nty - 1) * ntx + ntx == ntx * nty) by (nonlinear_arith);
            assert(ty * ntx >= 0) by (nonlinear_arith)
                requires
                    ty >= 0,
                    ntx > 0,
            ;
        }
        let row = (ty * ntx) as usize;
        let mut tx = s.0;
        while tx <= s.2
            invariant
                ntx > 0,
                nty > 0,
                nt == ntx * nty,
                nt <= i32::MAX,
                s.0 == span_x0(r),
                s.1 == span_y0(r),
                s.2 == span_x1(r, ntx as int),
                s.3 == span_y1(r, nty as int),
                0 <= s.0 <= s.2 < ntx,
                0 <= s.1 <= s.3 < nty,
                s.1 <= ty <= s.3,
                row == ty * ntx,
                0 <= row,
                row + ntx <= nt,
                s.0 <= tx <= s.2 + 1,
                offsets@.len() == nt + 1,
                offsets@[0] == orig[0],
                forall|t: int|
                    0 <= t < nt ==> #[trigger] orig[t + 1] + (if covers_tile(
                        r,
                        ntx as int,
                        nty as int,
                        t,
                    ) {
                        1int
                    } else {
                        0int
                    }) <= u32::MAX,
                forall|t: int|
                    0 <= t < nt ==> #[trigger] offsets@[t + 1] == orig[t + 1] + (if covers_tile(
                        r,
                        ntx as int,
                        nty as int,
                        t,
                    ) && visited_before(t, ntx as int, tx as int, ty as int) {
                        1int
                    } else {
                        0int
                    }),
            decreases s.2 + 1 - tx,
        {
            let tile = row + tx as usize;
            proof {
                lemma_tile_of(ntx as int, tx as int, ty as int);
                assert(covers_tile(r, ntx as int, nty as int, tile as int));
                assert(!visited_before(tile as int, ntx as int, tx as int, ty as int));
            }
            let c = offsets[tile + 1];
            offsets.set(tile + 1, c + 1);
            proof {
                assert forall|t: int| 0 <= t < nt implies #[trigger] offsets@[t + 1] == orig[t
                    + 1] + (if covers_tile(r, ntx as int, nty as int, t) && visited_before(
                    t,
                    ntx as int,
                    tx as int + 1,
                    ty as int,
                ) {
                    1int
                } else {
                    0int
                }) by {
                    lemma_tile_coords(ntx as int, t);
                    if t != tile {
                        if tile_row(t, ntx as int) == ty && tile_col(t, ntx as int) == tx {
                            assert(t == ty * ntx + tx);
                        }
                    }
                }
            }
            tx += 1;
        }
        proof {
            assert forall|t: int| 0 <= t < nt implies #[trigger] offsets@[t + 1] == orig[t + 1] + (
            if covers_tile(r, ntx as int, nty as int, t) && tile_row(t, ntx as int) < ty + 1 {
                1int
            } else {
                0int
            }) by {
                lemma_tile_coords(ntx as int, t);
            }
        }
        ty += 1;
    }
    proof {
        assert forall|t: int| 0 <= t < nt implies #[trigger] offsets@[t + 1] == orig[t + 1] + (
        if covers_tile(r, ntx as int, nty as int, t) {
            1int
        } else {
            0int
        }) by {
            lemma_tile_coords(ntx as int, t);
        }
    }
}

proof fn lemma_subrange_unchanged(a: Seq<u32>, pos: int, v: u32, lo: int, hi: int)
    requires
        0 <= lo <= hi <= a.len(),
        0 <= pos < a.len(),
        pos < lo || hi <= pos,
    ensures
        a.update(pos, v).subrange(lo, hi) == a.subrange(lo, hi),
{
    assert(a.update(pos, v).subrange(lo, hi) =~= a.subrange(lo, hi));
}

proof fn lemma_subrange_extend(a: Seq<u32>, pos: int, v: u32, lo: int)
    requires
        0 <= lo <= pos < a.len(),
    ensures
        a.update(pos, v).subrange(lo, pos + 1) == a.subrange(lo, pos).push(v),
{
    assert(a.update(pos, v).subrange(lo, pos + 1) =~= a.subrange(lo, pos).push(v));
}

/// Appends splat `idx` (the `k`-th rectangle) to the list of every tile
/// that its span covers.
fn scatter_span(
    cursor: &mut Vec<u32>,
    indices: &mut Vec<u32>,
    s: (i32, i32, i32, i32),
    ntx: i32,
    nty: i32,
    idx: u32,
    Ghost(rects): Ghost<Seq<PixelRect>>,
    Ghost(offs): Ghost<Seq<u32>>,
)
    requires
        ntx > 0,
        nty > 0,
        ntx * nty <= i32::MAX,
        0 <= idx < rects.len(),
        s.0 == span_x0(rects[idx as int]),
        s.1 == span_y0(rects[idx as int]),
        s.2 == span_x1(rects[idx as int], ntx as int),
        s.3 == span_y1(rects[idx as int], nty as int),
        s.0 <= s.2,
        s.1 <= s.3,
        offs.len() == ntx * nty + 1,
        offs[ntx * nty] == old(indices)@.len(),
        forall|t: int|
            0 <= t < ntx * nty ==> #[trigger] offs[t + 1] == offs[t] + bin_list(
                rects,
                ntx as int,
                nty as int,
                t,
                rects.len() as int,
            ).len(),
        forall|t1: int, t2: int| 0 <= t1 <= t2 <= ntx * nty ==> #[trigger] offs[t1] <= #[trigger] offs[t2],
        old(cursor)@.len() == ntx * nty,
        forall|t: int|
            0 <= t < ntx * nty ==> #[trigger] old(cursor)@[t] == offs[t] + bin_list(
                rects,
                ntx as int,
                nty as int,
                t,
                idx as int,
            ).len(),
        forall|t: int|
            0 <= t < ntx * nty ==> old(indices)@.subrange(offs[t] as int, old(cursor)@[t] as int)
                == #[trigger] bin_list(rects, ntx as int, nty as int, t, idx as int),
    ensures
        final(cursor)@.len() == ntx * nty,
        final(indices)@.len() == old(indices)@.len(),
        forall|t: int|
            0 <= t < ntx * nty ==> #[trigger] final(cursor)@[t] == offs[t] + bin_list(
                rects,
                ntx as int,
                nty as int,
                t,
                idx + 1,
            ).len(),
        forall|t: int|
            0 <= t < ntx * nty ==> final(indices)@.subrange(offs[t] as int, final(cursor)@[t] as int)
                == #[trigger] bin_list(rects, ntx as int, nty as int, t, idx + 1),
{
    let ghost nt = ntx * nty;
    let ghost r = rects[idx as int];
    let ghost n = rects.len() as int;
    let ghost k = idx as int;
    let mut ty = s.1;
    while ty <= s.3
        invariant
            ntx > 0,
            nty > 0,
            nt == ntx * nty,
            nt <= i32::MAX,
            0 <= k < n,
            n == rects.len(),
            r == rects[k],
            idx == k,
            s.0 == span_x0(r),
            s.1 == span_y0(r),
            s.2 == span_x1(r, ntx as int),
            s.3 == span_y1(r, nty as int),
            0 <= s.0 <= s.2 < ntx,
            0 <= s.1 <= s.3 < nty,
            s.1 <= ty <= s.3 + 1,
            offs.len() == nt + 1,
            offs[nt] == indices@.len(),
            forall|t: int|
                0 <= t < nt ==> #[trigger] offs[t + 1] == offs[t] + bin_list(
                    rects,
                    ntx as int,
                    nty as int,
                    t,
                    n,
                ).len(),
            forall|t1: int, t2: int| 0 <= t1 <= t2 <= nt ==> #[trigger] offs[t1] <= #[trigger] offs[t2],
            cursor@.len() == nt,
            forall|t: int|
                0 <= t < nt ==> #[trigger] cursor@[t] == offs[t] + bin_list(
                    rects,
                    ntx as int,
                    nty as int,
                    t,
                    k,
                ).len() + (if covers_tile(r, ntx as int, nty as int, t) && tile_row(
                    t,
                    ntx as int,
                ) < ty {
                    1int
                } else {
                    0int
                }),
            forall|t: int|
                0 <= t < nt ==> indices@.subrange(offs[t] as int, cursor@[t] as int) == (
                #[trigger] bin_list(rects, ntx as int, nty as int, t, k)) + (if covers_tile(
                    r,
                    ntx as int,
                    nty as int,
                    t,
                ) && tile_row(t, ntx as int) < ty {
                    seq![idx]
                } else {
                    seq![]
                }),
        decreases s.3 + 1 - ty,
    {
        proof {
            assert(ty * ntx <= (nty - 1) * ntx) by (nonlinear_arith)
                requires
                    ty <= nty - 1,
                    ntx > 0,
            ;
            assert((nty - 1) * ntx + ntx == ntx * nty) by (nonlinear_arith);
            assert(ty * ntx >= 0) by (nonlinear_arith)
                requires
                    ty >= 0,
                    ntx > 0,
            ;
        }
        let row = (ty * ntx) as usize;
        let mut tx = s.0;
        while tx <= s.2
            invariant
                ntx > 0,
                nty > 0,
                nt == ntx * nty,
                nt <= i32::MAX,
                0 <= k < n,
                n == rects.len(),
                r == rects[k],
                idx == k,
                s.0 == span_x0(r),
                s.1 == span_y0(r),
                s.2 == span_x1(r, ntx as int),
                s.3 == span_y1(r, nty as int),
                0 <= s.0 <= s.2 < ntx,
                0 <= s.1 <= s.3 < nty,
                s.1 <= ty <= s.3,
                row == ty * ntx,
                0 <= row,
                row + ntx <= nt,
                s.0 <= tx <= s.2 + 1,
                offs.len() == nt + 1,
                offs[nt] == indices@.len(),
                forall|t: int|
                    0 <= t < nt ==> #[trigger] offs[t + 1] == offs[t] + bin_list(
                        rects,
                        ntx as int,
                        nty as int,
                        t,
                        n,
                    ).len(),
                forall|t1: int, t2: int|
                    0 <= t1 <= t2 <= nt ==> #[trigger] offs[t1] <= #[trigger] offs[t2],
                cursor@.len() == nt,
                forall|t: int|
                    0 <= t < nt ==> #[trigger] cursor@[t] == offs[t] + bin_list(
                        rects,
                        ntx as int,
                        nty as int,
                        t,
                        k,
                    ).len() + (if covers_tile(r, ntx as int, nty as int, t) && visited_before(
                        t,
                        ntx as int,
                        tx as int,
                        ty as int,
                    ) {
                        1int
                    } else {
                        0int
                    }),
                forall|t: int|
                    0 <= t < nt ==> indices@.subrange(offs[t] as int, cursor@[t] as int) == (
                    #[trigger] bin_list(rects, ntx as int, nty as int, t, k)) + (if covers_tile(
                        r,
                        ntx as int,
                        nty as int,
                        t,
                    ) && visited_before(t, ntx as int, tx as int, ty as int) {
                        seq![idx]
                    } else {
                        seq![]
                    }),
            decreases s.2 + 1 - tx,
        {
            let tile = row + tx as usize;
            let ghost tl = tile as int;
            proof {
                lemma_tile_of(ntx as int, tx as int, ty as int);
                assert(covers_tile(r, ntx as int, nty as int, tl));
                assert(!visited_before(tl, ntx as int, tx as int, ty as int));
                lemma_bin_list_mono(rects, ntx as int, nty as int, tl, k + 1, n);
                assert(bin_list(rects, ntx as int, nty as int, tl, k + 1).len() == bin_list(
                    rects,
                    ntx as int,
                    nty as int,
                    tl,
                    k,
                ).len() + 1);
                assert(offs[tl + 1] == offs[tl] + bin_list(
                    rects,
                    ntx as int,
                    nty as int,
                    tl,
                    n,
                ).len());
                assert(offs[tl + 1] <= offs[nt]);
            }
            let pos = cursor[tile];
            let ghost old_indices = indices@;
            let ghost old_cursor = cursor@;
            indices.set(pos as usize, idx);
            cursor.set(tile, pos + 1);
            proof {
                assert forall|t: int| 0 <= t < nt implies #[trigger] cursor@[t] == offs[t]
                    + bin_list(rects, ntx as int, nty as int, t, k).len() + (if covers_tile(
                    r,
                    ntx as int,
                    nty as int,
                    t,
                ) && visited_before(t, ntx as int, tx as int + 1, ty as int) {
                    1int
                } else {
                    0int
                }) by {
                    lemma_tile_coords(ntx as int, t);
                    if t != tl {
                        if tile_row(t, ntx as int) == ty && tile_col(t, ntx as int) == tx {
                            assert(t == ty * ntx + tx);
                        }
                    }
                }
                assert forall|t: int| 0 <= t < nt implies indices@.subrange(
                    offs[t] as int,
                    cursor@[t] as int,
                ) == (#[trigger] bin_list(rects, ntx as int, nty as int, t, k)) + (if covers_tile(
                    r,
                    ntx as int,
                    nty as int,
                    t,
                ) && visited_before(t, ntx as int, tx as int + 1, ty as int) {
                    seq![idx]
                } else {
                    seq![]
                }) by {
                    lemma_tile_coords(ntx as int, t);
                    lemma_bin_list_mono(rects, ntx as int, nty as int, t, k + 1, n);
                    assert(bin_list(rects, ntx as int, nty as int, t, k + 1).len() == bin_list(
                        rects,
                        ntx as int,
                        nty as int,
                        t,
                        k,
                    ).len() + if covers_tile(r, ntx as int, nty as int, t) {
                        1int
                    } else {
                        0int
                    });
                    assert(offs[t + 1] == offs[t] + bin_list(
                        rects,
                        ntx as int,
                        nty as int,
                        t,
                        n,
                    ).len());
                    if t != tl {
                        if tile_row(t, ntx as int) == ty && tile_col(t, ntx as int) == tx {
                            assert(t == ty * ntx + tx);
                        }
                        if t < tl {
                            assert(offs[t + 1] <= offs[tl]);
                        } else {
                            assert(offs[tl + 1] <= offs[t]);
                        }
                        assert(old_cursor[t] <= offs[t + 1]);
                        lemma_subrange_unchanged(
                            old_indices,
                            pos as int,
                            idx,
                            offs[t] as int,
                            old_cursor[t] as int,
                        );
                    } else {
                        lemma_subrange_extend(old_indices, pos as int, idx, offs[t] as int);
                    }
                }
            }
            tx += 1;
        }
        proof {
            assert forall|t: int| 0 <= t < nt implies #[trigger] cursor@[t] == offs[t] + bin_list(
                rects,
                ntx as int,
                nty as int,
                t,
                k,
            ).len() + (if covers_tile(r, ntx as int, nty as int, t) && tile_row(t, ntx as int)
                < ty + 1 {
                1int
            } else {
                0int
            }) by {
                lemma_tile_coords(ntx as int, t);
            }
            assert forall|t: int| 0 <= t < nt implies indices@.subrange(
                offs[t] as int,
                cursor@[t] as int,
            ) == (#[trigger] bin_list(rects, ntx as int, nty as int, t, k)) + (if covers_tile(
                r,
                ntx as int,
                nty as int,
                t,
            ) && tile_row(t, ntx as int) < ty + 1 {
                seq![idx]
            } else {
                seq![]
            }) by {
                lemma_tile_coords(ntx as int, t);
            }
        }
        ty += 1;
    }
    proof {
        assert forall|t: int| 0 <= t < nt implies #[trigger] cursor@[t] == offs[t] + bin_list(
            rects,
            ntx as int,
            nty as int,
            t,
            k + 1,
        ).len() by {
            lemma_tile_coords(ntx as int, t);
        }
        assert forall|t: int| 0 <= t < nt implies indices@.subrange(
            offs[t] as int,
            cursor@[t] as int,
        ) == #[trigger] bin_list(rects, ntx as int, nty as int, t, k + 1) by {
            lemma_tile_coords(ntx as int, t);
        }
    }
}

/// Tiles across a side of `extent` pixels, computed as the binning does.
fn grid_side(extent: u32) -> (n: i32)
    requires
        extent <= MAX_EXTENT,
    ensures
        n as int == tiles_across(extent as int),
        0 <= n,
{
    let e = extent as i32;
    assert(e == extent);
    (e + (TILE_W - 1)) / TILE_W
}

/// Number of (splat, tile) entries that [`bin_splats`] would store for
/// these rectangles on a `width` x `height` framebuffer.
pub fn binned_entry_count(rects: &[PixelRect], width: u32, height: u32) -> (total: u64)
    requires
        width <= MAX_EXTENT,
        height <= MAX_EXTENT,
        tiles_across(width as int) * tiles_across(height as int) <= i32::MAX,
        rects@.len() <= u32::MAX,
    ensures
        total == overlap_total(
            rects@,
            tiles_across(width as int),
            tiles_across(height as int),
            rects@.len() as int,
        ),
{
    let ntx = grid_side(width);
    let nty = grid_side(height);
    let mut total: u64 = 0;
    let mut i: usize = 0;
    while i < rects.len()
        invariant
            0 <= i <= rects@.len(),
            rects@.len() <= u32::MAX,
            ntx as int == tiles_across(width as int),
            nty as int == tiles_across(height as int),
            ntx * nty <= i32::MAX,
            0 <= ntx,
            0 <= nty,
            total == overlap_total(rects@, ntx as int, nty as int, i as int),
            total <= i * 0x8000_0000,
        decreases rects@.len() - i,
    {
        let s = tile_span(&rects[i], ntx, nty);
        if s.0 <= s.2 && s.1 <= s.3 {
            let w = (s.2 - s.0 + 1) as u64;
            let h = (s.3 - s.1 + 1) as u64;
            proof {
                assert(w * h <= ntx * nty) by (nonlinear_arith)
                    requires
                        1 <= w <= ntx,
                        1 <= h <= nty,
                ;
                assert(total + w * h <= (i + 1) * 0x8000_0000) by (nonlinear_arith)
                    requires
                        total <= i * 0x8000_0000,
                        w * h <= 0x8000_0000,
                ;
                assert((i + 1) * 0x8000_0000 <= 0x1_0000_0000 * 0x8000_0000) by (nonlinear_arith)
                    requires
                        i + 1 <= 0x1_0000_0000,
                ;
            }
            total = total + w * h;
        }
        i += 1;
    }
    total
}

/// Sorts splats into 16x16 screen tiles. Afterwards the list of tile `t`
/// (row-major) holds, in increasing order, the index of every rectangle
/// whose clamped tile span covers `t`.
pub fn bin_splats(rects: &[PixelRect], width: u32, height: u32, bins: &mut TileBins)
    requires
        width <= MAX_EXTENT,
        height <= MAX_EXTENT,
        tiles_across(width as int) * tiles_across(height as int) <= i32::MAX,
        rects@.len() <= u32::MAX,
        overlap_total(
            rects@,
            tiles_across(width as int),
            tiles_across(height as int),
            rects@.len() as int,
        ) <= u32::MAX,
    ensures
        bins_match(final(bins)@, rects@, width as int, height as int),
{
    let ghost rs = rects@;
    let n = rects.len();
    let num_tiles_x = grid_side(width);
    let num_tiles_y = grid_side(height);
    let ghost ntx = num_tiles_x as int;
    let ghost nty = num_tiles_y as int;
    let ghost nt = ntx * nty;
    proof {
        vstd::arithmetic::mul::lemma_mul_nonnegative(ntx, nty);
    }
    let num_tiles = (num_tiles_x * num_tiles_y) as usize;
    bins.num_tiles_x = num_tiles_x;
    bins.num_tiles_y = num_tiles_y;

    bins.offsets.clear();
    bins.offsets.resize(num_tiles + 1, 0);
    proof {
        assert forall|t: int| 0 <= t < nt implies #[trigger] bins.offsets@[t + 1] == bin_list(
            rs,
            ntx,
            nty,
            t,
            0,
        ).len() by {}
    }

    // Count the entries of every tile, in slot `t + 1`.
    let mut idx: usize = 0;
    while idx < n
        invariant
            rs == rects@,
            n == rs.len(),
            n <= u32::MAX,
            0 <= idx <= n,
            ntx == num_tiles_x,
            nty == num_tiles_y,
            0 <= ntx,
            0 <= nty,
            nt == ntx * nty,
            nt <= i32::MAX,
            num_tiles == nt,
            overlap_total(rs, ntx, nty, n as int) <= u32::MAX,
            bins.offsets@.len() == nt + 1,
            bins.offsets@[0] == 0,
            bins.num_tiles_x == num_tiles_x,
            bins.num_tiles_y == num_tiles_y,
            forall|t: int|
                0 <= t < nt ==> #[trigger] bins.offsets@[t + 1] == bin_list(
                    rs,
                    ntx,
                    nty,
                    t,
                    idx as int,
                ).len(),
        decreases n - idx,
    {
        let s = tile_span(&rects[idx], num_tiles_x, num_tiles_y);
        if s.0 <= s.2 && s.1 <= s.3 {
            proof {
                assert forall|t: int| 0 <= t < nt implies #[trigger] bins.offsets@[t + 1] + (
                if covers_tile(rs[idx as int], ntx, nty, t) {
                    1int
                } else {
                    0int
                }) <= u32::MAX by {
                    lemma_bin_list_le_total(rs, ntx, nty, t, idx + 1);
                    lemma_overlap_mono(rs, ntx, nty, idx + 1, n as int);
                }
            }
            add_span_counts(
                &mut bins.offsets,
                s,
                num_tiles_x,
                num_tiles_y,
                Ghost(rs[idx as int]),
            );
        }
        idx += 1;
    }

    // Prefix sums: slot `t` becomes the start of tile `t`'s list.
    let mut i: usize = 1;
    proof {
        if ntx > 0 && nty > 0 {
            lemma_entries_total(rs, ntx, nty, n as int);
        }
    }
    proof {
        assert forall|t: int| 1 <= t <= nt implies #[trigger] bins.offsets@[t] == bin_list(
            rs,
            ntx,
            nty,
            t - 1,
            n as int,
        ).len() by {
            assert(bins.offsets@[(t - 1) + 1] == bin_list(rs, ntx, nty, t - 1, n as int).len());
        }
    }
    while i <= num_tiles
        invariant
            rs == rects@,
            n == rs.len(),
            1 <= i <= nt + 1,
            0 <= ntx,
            0 <= nty,
            nt == ntx * nty,
            nt <= i32::MAX,
            num_tiles == nt,
            ntx > 0 && nty > 0 ==> entries_below(rs, ntx, nty, n as int, nt) == overlap_total(
                rs,
                ntx,
                nty,
                n as int,
            ),
            nt == 0 ==> entries_below(rs, ntx, nty, n as int, nt) == 0,
            overlap_total(rs, ntx, nty, n as int) <= u32::MAX,
            bins.offsets@.len() == nt + 1,
            bins.num_tiles_x == num_tiles_x,
            bins.num_tiles_y == num_tiles_y,
            forall|t: int|
                0 <= t < i ==> #[trigger] bins.offsets@[t] == entries_below(
                    rs,
                    ntx,
                    nty,
                    n as int,
                    t,
                ),
            forall|t: int|
                i <= t <= nt ==> #[trigger] bins.offsets@[t] == bin_list(
                    rs,
                    ntx,
                    nty,
                    t - 1,
                    n as int,
                ).len(),
        decreases nt + 1 - i,
    {
        proof {
            lemma_entries_mono(rs, ntx, nty, n as int, i as int, nt);
        }
        let prev = bins.offsets[i - 1];
        let cur = bins.offsets[i];
        bins.offsets.set(i, cur + prev);
        i += 1;
    }
    let total = bins.offsets[num_tiles] as usize;
    let ghost offs = bins.offsets@;
    proof {
        assert forall|t1: int, t2: int| 0 <= t1 <= t2 <= nt implies #[trigger] offs[t1]
            <= #[trigger] offs[t2] by {
            lemma_entries_mono(rs, ntx, nty, n as int, t1, t2);
        }
        assert forall|t: int| 0 <= t < nt implies #[trigger] offs[t + 1] == offs[t] + bin_list(
            rs,
            ntx,
            nty,
            t,
            n as int,
        ).len() by {
            assert(offs[t + 1] == entries_below(rs, ntx, nty, n as int, t + 1));
        }
    }

    bins.splat_indices.clear();
    bins.splat_indices.resize(total, 0);
    assert(bins.splat_indices@.len() == total);
    assert(offs[nt] == total);

    bins.cursor.clear();
    let mut t: usize = 0;
    while t < num_tiles
        invariant
            0 <= t <= nt,
            num_tiles == nt,
            offs == bins.offsets@,
            offs.len() == nt + 1,
            bins.cursor@ == offs.subrange(0, t as int),
            bins.splat_indices@.len() == offs[nt],
            bins.num_tiles_x == num_tiles_x,
            bins.num_tiles_y == num_tiles_y,
        decreases nt - t,
    {
        let o = bins.offsets[t];
        bins.cursor.push(o);
        proof {
            assert(bins.cursor@ =~= offs.subrange(0, t + 1));
        }
        t += 1;
    }

    // Write every splat's index into the lists of the tiles it covers.
    let mut idx: usize = 0;
    while idx < n
        invariant
            rs == rects@,
            n == rs.len(),
            n <= u32::MAX,
            0 <= idx <= n,
            ntx == num_tiles_x,
            nty == num_tiles_y,
            0 <= ntx,
            0 <= nty,
            nt == ntx * nty,
            nt <= i32::MAX,
            num_tiles == nt,
            offs == bins.offsets@,
            offs.len() == nt + 1,
            offs[nt] == bins.splat_indices@.len(),
            forall|t: int|
                0 <= t < nt ==> #[trigger] offs[t + 1] == offs[t] + bin_list(
                    rs,
                    ntx,
                    nty,
                    t,
                    n as int,
                ).len(),
            forall|t1: int, t2: int| 0 <= t1 <= t2 <= nt ==> #[trigger] offs[t1] <= #[trigger] offs[t2],
            bins.cursor@.len() == nt,
            forall|t: int|
                0 <= t < nt ==> #[trigger] bins.cursor@[t] == offs[t] + bin_list(
                    rs,
                    ntx,
                    nty,
                    t,
                    idx as int,
                ).len(),
            forall|t: int|
                0 <= t < nt ==> bins.splat_indices@.subrange(
                    offs[t] as int,
                    bins.cursor@[t] as int,
                ) == #[trigger] bin_list(rs, ntx, nty, t, idx as int),
            bins.num_tiles_x == num_tiles_x,
            bins.num_tiles_y == num_tiles_y,
        decreases n - idx,
    {
        let s = tile_span(&rects[idx], num_tiles_x, num_tiles_y);
        if s.0 <= s.2 && s.1 <= s.3 {
            scatter_span(
                &mut bins.cursor,
                &mut bins.splat_indices,
                s,
                num_tiles_x,
                num_tiles_y,
                idx as u32,
                Ghost(rs),
                Ghost(offs),
            );
        } else {
            proof {
                assert forall|t: int| 0 <= t < nt implies bin_list(rs, ntx, nty, t, idx + 1)
                    == bin_list(rs, ntx, nty, t, idx as int) by {
                    assert(!covers_tile(rs[idx as int], ntx, nty, t));
                    assert(bin_list(rs, ntx, nty, t, idx + 1) =~= bin_list(
                        rs,
                        ntx,
                        nty,
                        t,
                        idx as int,
                    ));
                }
            }
        }
        idx += 1;
    }
    proof {
        assert forall|t: int| 0 <= t < nt implies bins.splat_indices@.subrange(
            offs[t] as int,
            offs[t + 1] as int,
        ) == #[trigger] bin_list(rs, ntx, nty, t, n as int) by {
            assert(bins.cursor@[t] == offs[t + 1]);
        }
        assert(offs[0] == entries_below(rs, ntx, nty, n as int, 0));
    }
}

proof fn lemma_overlap_mono(rects: Seq<PixelRect>, ntx: int, nty: int, k1: int, k2: int)
    requires
        0 <= k1 <= k2,
        ntx >= 0,
    ensures
        overlap_total(rects, ntx, nty, k1) <= overlap_total(rects, ntx, nty, k2),
    decreases k2,
{
    if k2 > k1 {
        lemma_overlap_mono(rects, ntx, nty, k1, k2 - 1);
        let r = rects[k2 - 1];
        if span_x0(r) <= span_x1(r, ntx) && span_y0(r) <= span_y1(r, nty) {
            let w = span_x1(r, ntx) - span_x0(r) + 1;
            let h = span_y1(r, nty) - span_y0(r) + 1;
            assert(w * h >= 0) by (nonlinear_arith)
                requires
                    w >= 1,
                    h >= 1,
            ;
        }
    }
}

// ---------------------------------------------------------------------------
// Tiles as pixel rectangles, and what the tiled compositor visits.

/// The rectangle contains pixel `(x, y)`.
pub open spec fn rect_contains(r: PixelRect, x: int, y: int) -> bool {
    r.x0 <= x <= r.x1 && r.y0 <= y <= r.y1
}

/// The tile that holds pixel `(x, y)` of a grid `ntx` tiles wide.
pub open spec fn tile_of_pixel(x: int, y: int, ntx: int) -> int {
    (y / 16) * ntx + x / 16
}

/// Pixels of tile `t`, clipped to a `width` x `height` framebuffer.
pub open spec fn tile_pixel_rect_spec(t: int, ntx: int, width: int, height: int) -> PixelRect {
    let px0 = tile_col(t, ntx) * 16;
    let py0 = tile_row(t, ntx) * 16;
    let px1 = if px0 + 15 < width - 1 {
        px0 + 15
    } else {
        width - 1
    };
    let py1 = if py0 + 15 < height - 1 {
        py0 + 15
    } else {
        height - 1
    };
    PixelRect { x0: px0 as i32, y0: py0 as i32, x1: px1 as i32, y1: py1 as i32 }
}

/// Overlap of two rectangles (empty when `x0 > x1` or `y0 > y1`).
pub open spec fn intersect_spec(a: PixelRect, b: PixelRect) -> PixelRect {
    PixelRect {
        x0: if a.x0 > b.x0 {
            a.x0
        } else {
            b.x0
        },
        y0: if a.y0 > b.y0 {
            a.y0
        } else {
            b.y0
        },
        x1: if a.x1 < b.x1 {
            a.x1
        } else {
            b.x1
        },
        y1: if a.y1 < b.y1 {
            a.y1
        } else {
            b.y1
        },
    }
}

/// The rectangle holds no pixel.
pub open spec fn rect_is_empty(r: PixelRect) -> bool {
    r.x0 > r.x1 || r.y0 > r.y1
}

/// Indices, in increasing order, of the first `k` rectangles that contain
/// pixel `(x, y)`: the splats the serial compositor blends into it.
pub open spec fn pixel_list(rects: Seq<PixelRect>, x: int, y: int, k: int) -> Seq<u32>
    decreases k,
{
    if k <= 0 {
        seq![]
    } else {
        pixel_list(rects, x, y, k - 1) + if rect_contains(rects[k - 1], x, y) {
            seq![(k - 1) as u32]
        } else {
            seq![]
        }
    }
}

/// The entries of `list` whose rectangle, clipped to `tile`, contains
/// pixel `(x, y)`: the splats the tiled compositor blends into it.
pub open spec fn tiled_pixel_list(
    rects: Seq<PixelRect>,
    list: Seq<u32>,
    tile: PixelRect,
    x: int,
    y: int,
) -> Seq<u32>
    decreases list.len(),
{
    if list.len() == 0 {
        seq![]
    } else {
        let i = list.last();
        tiled_pixel_list(rects, list.drop_last(), tile, x, y) + if rect_contains(
            intersect_spec(rects[i as int], tile),
            x,
            y,
        ) {
            seq![i]
        } else {
            seq![]
        }
    }
}

proof fn lemma_pixel_tile(x: int, y: int, width: int, height: int)
    requires
        0 <= x < width,
        0 <= y < height,
        width <= MAX_EXTENT,
        height <= MAX_EXTENT,
    ensures
        0 <= tile_of_pixel(x, y, tiles_across(width)) < tiles_across(width) * tiles_across(
            height,
        ),
{
    let ntx = tiles_across(width);
    let nty = tiles_across(height);
    assert(x / 16 < ntx && y / 16 < nty);
    lemma_tile_of(ntx, x / 16, y / 16);
    lemma_tile_in_grid(ntx, nty, tile_of_pixel(x, y, ntx));
}

/// Pixel `(x, y)` of the framebuffer lies in exactly one tile, the one
/// `tile_of_pixel` names.
pub proof fn lemma_pixel_in_one_tile(x: int, y: int, t: int, width: int, height: int)
    requires
        0 <= x < width,
        0 <= y < height,
        width <= MAX_EXTENT,
        height <= MAX_EXTENT,
        0 <= t < tiles_across(width) * tiles_across(height),
    ensures
        0 <= tile_of_pixel(x, y, tiles_across(width)) < tiles_across(width) * tiles_across(
            height,
        ),
        rect_contains(tile_pixel_rect_spec(t, tiles_across(width), width, height), x, y) <==> t
            == tile_of_pixel(x, y, tiles_across(width)),
{
    let ntx = tiles_across(width);
    let nty = tiles_across(height);
    assert(x / 16 < ntx && y / 16 < nty);
    lemma_tile_of(ntx, x / 16, y / 16);
    lemma_tile_in_grid(ntx, nty, tile_of_pixel(x, y, ntx));
    lemma_tile_coords(ntx, t);
    lemma_tile_in_grid(ntx, nty, t);
    let c = tile_col(t, ntx);
    let r = tile_row(t, ntx);
    assert(c * 16 <= 0x7FFF_FFFF && r * 16 <= 0x7FFF_FFFF);
    if t != tile_of_pixel(x, y, ntx) {
        assert(c != x / 16 || r != y / 16);
    }
}

/// The law behind the parallel compositor: for every pixel, the splats that
/// its tile's list brings, clipped to the tile, are exactly the splats the
/// serial compositor blends into that pixel, in the same order.
pub proof fn lemma_tiled_matches_serial(
    rects: Seq<PixelRect>,
    bins: TileBinsView,
    width: int,
    height: int,
    x: int,
    y: int,
)
    requires
        bins_match(bins, rects, width, height),
        rects.len() <= u32::MAX,
        width <= MAX_EXTENT,
        height <= MAX_EXTENT,
        0 <= x < width,
        0 <= y < height,
    ensures
        ({
            let ntx = tiles_across(width);
            let t = tile_of_pixel(x, y, ntx);
            let list = bins.splat_indices.subrange(
                bins.offsets[t] as int,
                bins.offsets[t + 1] as int,
            );
            tiled_pixel_list(rects, list, tile_pixel_rect_spec(t, ntx, width, height), x, y)
                == pixel_list(rects, x, y, rects.len() as int)
        }),
{
    let ntx = tiles_across(width);
    let nty = tiles_across(height);
    let t = tile_of_pixel(x, y, ntx);
    lemma_pixel_tile(x, y, width, height);
    lemma_pixel_in_one_tile(x, y, t, width, height);
    lemma_tiled_prefix(rects, ntx, nty, width, height, x, y, rects.len() as int);
}

proof fn lemma_tiled_prefix(
    rects: Seq<PixelRect>,
    ntx: int,
    nty: int,
    width: int,
    height: int,
    x: int,
    y: int,
    k: int,
)
    requires
        ntx == tiles_across(width),
        nty == tiles_across(height),
        width <= MAX_EXTENT,
        height <= MAX_EXTENT,
        0 <= x < width,
        0 <= y < height,
        0 <= k <= rects.len(),
        rects.len() <= u32::MAX,
        rect_contains(
            tile_pixel_rect_spec(tile_of_pixel(x, y, ntx), ntx, width, height),
            x,
            y,
        ),
    ensures
        tiled_pixel_list(
            rects,
            bin_list(rects, ntx, nty, tile_of_pixel(x, y, ntx), k),
            tile_pixel_rect_spec(tile_of_pixel(x, y, ntx), ntx, width, height),
            x,
            y,
        ) == pixel_list(rects, x, y, k),
    decreases k,
{
    let t = tile_of_pixel(x, y, ntx);
    let tile = tile_pixel_rect_spec(t, ntx, width, height);
    if k > 0 {
        lemma_tiled_prefix(rects, ntx, nty, width, height, x, y, k - 1);
        let r = rects[k - 1];
        let prev = bin_list(rects, ntx, nty, t, k - 1);
        lemma_tile_of(ntx, x / 16, y / 16);
        if rect_contains(r, x, y) {
            assert(covers_tile(r, ntx, nty, t));
        }
        if covers_tile(r, ntx, nty, t) {
            let cur = prev + seq![(k - 1) as u32];
            assert(cur.drop_last() =~= prev);
            assert(cur.last() == (k - 1) as u32);
            assert(((k - 1) as u32) as int == k - 1);
        } else {
            assert(prev + seq![] =~= prev);
        }
    }
}

/// The pixel rectangle of tile `tile_idx`, or `None` when the tile holds
/// no pixel of the framebuffer.
pub fn tile_pixel_rect(tile_idx: usize, num_tiles_x: i32, width: u32, height: u32) -> (r: Option<
    PixelRect,
>)
    requires
        width <= MAX_EXTENT,
        height <= MAX_EXTENT,
        num_tiles_x as int == tiles_across(width as int),
        num_tiles_x > 0,
        tile_idx < tiles_across(width as int) * tiles_across(height as int),
        tiles_across(width as int) * tiles_across(height as int) <= i32::MAX,
    ensures
        r == if rect_is_empty(
            tile_pixel_rect_spec(tile_idx as int, num_tiles_x as int, width as int, height as int),
        ) {
            None
        } else {
            Some(
                tile_pixel_rect_spec(
                    tile_idx as int,
                    num_tiles_x as int,
                    width as int,
                    height as int,
                ),
            )
        },
{
    let ghost ntx = num_tiles_x as int;
    proof {
        lemma_tile_coords(ntx, tile_idx as int);
        lemma_tile_in_grid(ntx, tiles_across(height as int), tile_idx as int);
    }
    let t = tile_idx as i32;
    let tile_x = t % num_tiles_x;
    let tile_y = t / num_tiles_x;
    let px0 = tile_x * TILE_W;
    let py0 = tile_y * TILE_H;
    let w_i = width as i32;
    let h_i = height as i32;
    let px1 = if px0 + TILE_W - 1 < w_i - 1 {
        px0 + TILE_W - 1
    } else {
        w_i - 1
    };
    let py1 = if py0 + TILE_H - 1 < h_i - 1 {
        py0 + TILE_H - 1
    } else {
        h_i - 1
    };
    if px0 > px1 || py0 > py1 {
        None
    } else {
        Some(PixelRect { x0: px0, y0: py0, x1: px1, y1: py1 })
    }
}

/// Overlap of a splat's rectangle with a tile, or `None` when they do not
/// meet.
pub fn clip_rect(a: PixelRect, b: PixelRect) -> (r: Option<PixelRect>)
    ensures
        r == if rect_is_empty(intersect_spec(a, b)) {
            None
        } else {
            Some(intersect_spec(a, b))
        },
{
    let x0 = if a.x0 > b.x0 {
        a.x0
    } else {
        b.x0
    };
    let y0 = if a.y0 > b.y0 {
        a.y0
    } else {
        b.y0
    };
    let x1 = if a.x1 < b.x1 {
        a.x1
    } else {
        b.x1
    };
    let y1 = if a.y1 < b.y1 {
        a.y1
    } else {
        b.y1
    };
    if x0 > x1 || y0 > y1 {
        None
    } else {
        Some(PixelRect { x0, y0, x1, y1 })
    }
}

impl TileBins {
    /// Bounds `(start, end)` of tile `t`'s list in `splat_indices`.
    pub fn tile_range(&self, t: usize) -> (r: (usize, usize))
        requires
            t + 1 < self@.offsets.len(),
        ensures
            r.0 == self@.offsets[t as int],
            r.1 == self@.offsets[t + 1],
    {
        let _n = self.offsets.len();
        (self.offsets[t] as usize, self.offsets[t + 1] as usize)
    }
}

} // verus!
