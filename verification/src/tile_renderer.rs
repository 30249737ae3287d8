//! The tiled renderer: decomposition of a W×H output into clipped tiles,
//! center-out ordering, a back-buffer with non-overlapping blits, and the
//! cancellation-aware run loop that merges preloaded tiles with freshly
//! rendered ones.

use vstd::arithmetic::div_mod::{
    lemma_fundamental_div_mod, lemma_fundamental_div_mod_converse,
};
use vstd::pervasive::VecAdditionalExecFns;
use vstd::prelude::*;

use crate::cancel::{CancelResult, CancelToken};
use crate::map::GridPoint;

verus! {

/// Width of a full (unclipped) tile, in cells.
pub const TILE_WIDTH: u32 = 128;

/// Height of a full (unclipped) tile, in cells.
pub const TILE_HEIGHT: u32 = 128;

/// A two-dimensional size or position with unsigned 32-bit axes.
#[derive(Clone, Copy, PartialEq, Eq, Structural, Debug)]
pub struct Vec2u {
    pub x: u32,
    pub y: u32,
}

impl Vec2u {
    pub open spec fn area(self) -> int {
        self.x * self.y
    }

    pub fn new(x: u32, y: u32) -> (r: Self)
        ensures
            r == (Vec2u { x, y }),
    {
        Vec2u { x, y }
    }
}

/// A rectangular sub-region of the output grid, rendered as a unit of work.
#[derive(Clone, Copy, PartialEq, Eq, Structural, Debug)]
pub struct TileRange {
    pub pos: Vec2u,
    pub size: Vec2u,
}

impl TileRange {
    /// Number of cells this tile covers.
    pub open spec fn area(self) -> int {
        self.size.area()
    }

    /// The tile fits the output `size`: it ends within the output on both
    /// axes, is not degenerate, and is clipped to the tile dimensions.
    pub open spec fn wf_in(self, size: Vec2u) -> bool {
        &&& self.pos.x + self.size.x <= size.x
        &&& self.pos.y + self.size.y <= size.y
        &&& 0 < self.size.x <= TILE_WIDTH
        &&& 0 < self.size.y <= TILE_HEIGHT
    }

    /// Whether the cell at absolute coordinates `(x, y)` lies in this tile.
    pub open spec fn contains(self, x: int, y: int) -> bool {
        &&& self.pos.x <= x < self.pos.x + self.size.x
        &&& self.pos.y <= y < self.pos.y + self.size.y
    }

    /// The index of the cell `(x, y)` inside this tile's row-major payload.
    pub open spec fn local_index(self, x: int, y: int) -> int {
        (y - self.pos.y) * self.size.x + (x - self.pos.x)
    }
}

// ---------------------------------------------------------------------------
// Decomposition
// ---------------------------------------------------------------------------

/// Number of tile columns: `ceil(w / TILE_WIDTH)`.
pub open spec fn tile_cols(w: u32) -> int {
    (w + TILE_WIDTH - 1) as int / TILE_WIDTH as int
}

/// Number of tile rows: `ceil(h / TILE_HEIGHT)`.
pub open spec fn tile_rows(h: u32) -> int {
    (h + TILE_HEIGHT - 1) as int / TILE_HEIGHT as int
}

/// Total number of tiles of a `size` output.
pub open spec fn tile_count(size: Vec2u) -> int {
    tile_rows(size.y) * tile_cols(size.x)
}

/// The `k`-th tile of a `size` output, in row-major tile order: tile
/// `(col, row)` starts at `(col·TW, row·TH)` and is clipped at the right
/// and bottom edges.
pub open spec fn tile_spec(size: Vec2u, k: int) -> TileRange {
    let tx = tile_cols(size.x);
    let row = k / tx;
    let col = k % tx;
    TileRange {
        pos: Vec2u { x: (col * TILE_WIDTH) as u32, y: (row * TILE_HEIGHT) as u32 },
        size: Vec2u {
            x: (if size.x - col * TILE_WIDTH < TILE_WIDTH {
                size.x - col * TILE_WIDTH
            } else {
                TILE_WIDTH as int
            }) as u32,
            y: (if size.y - row * TILE_HEIGHT < TILE_HEIGHT {
                size.y - row * TILE_HEIGHT
            } else {
                TILE_HEIGHT as int
            }) as u32,
        },
    }
}

/// The index of the tile that covers the cell `(x, y)`.
pub open spec fn tile_index_of(size: Vec2u, x: int, y: int) -> int {
    (y / TILE_HEIGHT as int) * tile_cols(size.x) + x / TILE_WIDTH as int
}

/// Ceiling division packs exactly: `q = ceil(w / t)` covers `[0, w)` with
/// strips of width `t`, the last one clipped.
proof fn lemma_ceil_div(w: int, t: int)
    requires
        0 <= w,
        0 < t,
    ensures
        ((w + t - 1) / t) * t >= w,
        w > 0 ==> ((w + t - 1) / t - 1) * t < w,
        w > 0 ==> (w + t - 1) / t >= 1,
        (w + t - 1) / t <= w,
        w == 0 ==> (w + t - 1) / t == 0,
{
    lemma_fundamental_div_mod(w + t - 1, t);
    let q = (w + t - 1) / t;
    let r = (w + t - 1) % t;
    assert(w + t - 1 == t * q + r);
    assert(q * t >= w && (w > 0 ==> ((q - 1) * t < w && q >= 1)) && q <= w && (w == 0 ==> q == 0))
        by (nonlinear_arith)
        requires
            w + t - 1 == t * q + r,
            0 <= r < t,
            0 <= w,
            0 < t,
    ;
}

/// A strip index below its count starts inside the output.
proof fn lemma_strip_start(c: int, t: int, q: int, w: int)
    requires
        0 <= c < q,
        (q - 1) * t < w,
        0 < t,
    ensures
        0 <= c * t < w,
        c * t + t <= q * t,
{
    assert(0 <= c * t < w && c * t + t <= q * t) by (nonlinear_arith)
        requires
            0 <= c <= q - 1,
            (q - 1) * t < w,
            0 < t,
    ;
}

/// Strip membership determines the strip: if `c·t ≤ x < c·t + t` then
/// `c == x / t`.
proof fn lemma_strip_of(x: int, c: int, t: int)
    requires
        0 < t,
        c * t <= x < c * t + t,
    ensures
        x / t == c,
{
    lemma_fundamental_div_mod_converse(x, t, c, x - c * t);
}

/// Every cell of the output lies in exactly one decomposition tile, and
/// that tile is the one `tile_index_of` names.
pub proof fn lemma_tile_cover(size: Vec2u, x: int, y: int)
    requires
        0 <= x < size.x,
        0 <= y < size.y,
    ensures
        0 <= tile_index_of(size, x, y) < tile_count(size),
        tile_spec(size, tile_index_of(size, x, y)).contains(x, y),
        forall|k: int|
            0 <= k < tile_count(size) && #[trigger] tile_spec(size, k).contains(x, y) ==> k
                == tile_index_of(size, x, y),
{
    let tw = TILE_WIDTH as int;
    let th = TILE_HEIGHT as int;
    let tx = tile_cols(size.x);
    let ty = tile_rows(size.y);
    let col = x / tw;
    let row = y / th;
    lemma_ceil_div(size.x as int, tw);
    lemma_ceil_div(size.y as int, th);
    lemma_fundamental_div_mod(x, tw);
    lemma_fundamental_div_mod(y, th);
    assert(0 <= col && col * tw <= x < col * tw + tw) by (nonlinear_arith)
        requires
            x == tw * col + (x % tw),
            0 <= x % tw < tw,
            0 <= x,
            tw > 0,
    ;
    assert(0 <= row && row * th <= y < row * th + th) by (nonlinear_arith)
        requires
            y == th * row + (y % th),
            0 <= y % th < th,
            0 <= y,
            th > 0,
    ;
    assert(col < tx) by (nonlinear_arith)
        requires
            col * tw <= x,
            x < size.x,
            tx * tw >= size.x,
            tw > 0,
            0 <= col,
    ;
    assert(row < ty) by (nonlinear_arith)
        requires
            row * th <= y,
            y < size.y,
            ty * th >= size.y,
            th > 0,
            0 <= row,
    ;
    let k = row * tx + col;
    lemma_fundamental_div_mod_converse(k, tx, row, col);
    assert(0 <= k < ty * tx) by (nonlinear_arith)
        requires
            k == row * tx + col,
            0 <= row < ty,
            0 <= col < tx,
    ;
    assert(k == tile_index_of(size, x, y));
    // Containment: the strip start fits in a 32-bit value and the clipped
    // width reaches past `x`.
    lemma_strip_start(col, tw, tx, size.x as int);
    lemma_strip_start(row, th, ty, size.y as int);
    let t = tile_spec(size, k);
    assert(t.pos.x == col * tw && t.pos.y == row * th);
    assert(t.contains(x, y));
    // Uniqueness.
    assert forall|k2: int|
        0 <= k2 < tile_count(size) && #[trigger] tile_spec(size, k2).contains(x, y) implies k2
        == k by {
        let row2 = k2 / tx;
        let col2 = k2 % tx;
        lemma_fundamental_div_mod(k2, tx);
        assert(k2 == tx * row2 + col2);
        assert(0 <= col2 < tx);
        assert(0 <= row2 < ty) by (nonlinear_arith)
            requires
                k2 == tx * row2 + col2,
                0 <= col2 < tx,
                0 <= k2,
                k2 < ty * tx,
                tx > 0,
        ;
        lemma_strip_start(col2, tw, tx, size.x as int);
        lemma_strip_start(row2, th, ty, size.y as int);
        let t2 = tile_spec(size, k2);
        assert(t2.pos.x == col2 * tw && t2.pos.y == row2 * th);
        assert(t2.size.x <= tw && t2.size.y <= th);
        lemma_strip_of(x, col2, tw);
        lemma_strip_of(y, row2, th);
        assert(col2 == col && row2 == row);
        assert(k2 == k) by (nonlinear_arith)
            requires
                k2 == tx * row2 + col2,
                k == row * tx + col,
                row2 == row,
                col2 == col,
        ;
    }
}

/// Each decomposition tile fits the output.
pub proof fn lemma_tile_wf(size: Vec2u, k: int)
    requires
        size.x > 0,
        size.y > 0,
        0 <= k < tile_count(size),
    ensures
        tile_spec(size, k).wf_in(size),
{
    let tw = TILE_WIDTH as int;
    let th = TILE_HEIGHT as int;
    let tx = tile_cols(size.x);
    let ty = tile_rows(size.y);
    lemma_ceil_div(size.x as int, tw);
    lemma_ceil_div(size.y as int, th);
    let row = k / tx;
    let col = k % tx;
    lemma_fundamental_div_mod(k, tx);
    assert(k == tx * row + col);
    assert(0 <= col < tx);
    assert(0 <= row < ty) by (nonlinear_arith)
        requires
            k == tx * row + col,
            0 <= col < tx,
            0 <= k,
            k < ty * tx,
            tx > 0,
    ;
    lemma_strip_start(col, tw, tx, size.x as int);
    lemma_strip_start(row, th, ty, size.y as int);
}

/// Distinct decomposition tiles never overlap, and each is distinct as a
/// value: the multiset of tile ranges exactly tiles the output.
pub proof fn lemma_tile_disjoint(size: Vec2u, k1: int, k2: int, x: int, y: int)
    requires
        0 <= k1 < tile_count(size),
        0 <= k2 < tile_count(size),
        k1 != k2,
        tile_spec(size, k1).contains(x, y),
    ensures
        !tile_spec(size, k2).contains(x, y),
{
    if tile_spec(size, k2).contains(x, y) {
        assert(0 <= x < size.x && 0 <= y < size.y) by {
            lemma_tile_in_bounds(size, k1, x, y);
        }
        lemma_tile_cover(size, x, y);
    }
}

/// A cell of a decomposition tile lies inside the output.
pub proof fn lemma_tile_in_bounds_pub(size: Vec2u, k: int, x: int, y: int)
    requires
        0 <= k < tile_count(size),
        tile_spec(size, k).contains(x, y),
    ensures
        0 <= x < size.x,
        0 <= y < size.y,
{
    lemma_tile_in_bounds(size, k, x, y);
}

/// A cell of a decomposition tile lies inside the output.
proof fn lemma_tile_in_bounds(size: Vec2u, k: int, x: int, y: int)
    requires
        0 <= k < tile_count(size),
        tile_spec(size, k).contains(x, y),
    ensures
        0 <= x < size.x,
        0 <= y < size.y,
{
    let tw = TILE_WIDTH as int;
    let th = TILE_HEIGHT as int;
    let tx = tile_cols(size.x);
    let ty = tile_rows(size.y);
    lemma_ceil_div(size.x as int, tw);
    lemma_ceil_div(size.y as int, th);
    assert(size.x > 0 && size.y > 0) by (nonlinear_arith)
        requires
            0 <= k,
            k < ty * tx,
            size.x == 0 ==> tx == 0,
            size.y == 0 ==> ty == 0,
    ;
    let row = k / tx;
    let col = k % tx;
    lemma_fundamental_div_mod(k, tx);
    assert(k == tx * row + col);
    assert(0 <= col < tx);
    assert(0 <= row < ty) by (nonlinear_arith)
        requires
            k == tx * row + col,
            0 <= col < tx,
            0 <= k,
            k < ty * tx,
            tx > 0,
    ;
    lemma_strip_start(col, tw, tx, size.x as int);
    lemma_strip_start(row, th, ty, size.y as int);
}

/// The number of decomposition tiles of a `size` output.
pub fn tile_total(size: Vec2u) -> (r: usize)
    requires
        size.x > 0,
        size.y > 0,
        tile_count(size) <= usize::MAX,
    ensures
        r == tile_count(size),
{
    proof {
        lemma_ceil_div(size.x as int, TILE_WIDTH as int);
        lemma_ceil_div(size.y as int, TILE_HEIGHT as int);
    }
    let tx: u32 = (size.x - 1) / TILE_WIDTH + 1;
    let ty: u32 = (size.y - 1) / TILE_HEIGHT + 1;
    proof {
        lemma_fundamental_div_mod((size.x - 1) as int, TILE_WIDTH as int);
        lemma_fundamental_div_mod_converse(
            (size.x + TILE_WIDTH - 1) as int,
            TILE_WIDTH as int,
            tx as int,
            ((size.x - 1) as int) % (TILE_WIDTH as int),
        );
        lemma_fundamental_div_mod((size.y - 1) as int, TILE_HEIGHT as int);
        lemma_fundamental_div_mod_converse(
            (size.y + TILE_HEIGHT - 1) as int,
            TILE_HEIGHT as int,
            ty as int,
            ((size.y - 1) as int) % (TILE_HEIGHT as int),
        );
        assert(tx == tile_cols(size.x));
        assert(ty == tile_rows(size.y));
        assert((ty as int) * (tx as int) == tile_count(size));
    }
    (ty as usize) * (tx as usize)
}

/// Builds the decomposition tiles of a `size` output, in row-major tile
/// order: the `k`-th element is exactly `tile_spec(size, k)`.
pub fn tiles_for(size: Vec2u) -> (r: Vec<TileRange>)
    requires
        size.x > 0,
        size.y > 0,
        tile_count(size) <= usize::MAX,
    ensures
        r@.len() == tile_count(size),
        forall|k: int| 0 <= k < r@.len() ==> r@[k] == tile_spec(size, k),
{
    proof {
        lemma_ceil_div(size.x as int, TILE_WIDTH as int);
        lemma_ceil_div(size.y as int, TILE_HEIGHT as int);
    }
    let tx: u32 = (size.x - 1) / TILE_WIDTH + 1;
    let ty: u32 = (size.y - 1) / TILE_HEIGHT + 1;
    proof {
        lemma_fundamental_div_mod((size.x - 1) as int, TILE_WIDTH as int);
        lemma_fundamental_div_mod_converse(
            (size.x + TILE_WIDTH - 1) as int,
            TILE_WIDTH as int,
            tx as int,
            ((size.x - 1) as int) % (TILE_WIDTH as int),
        );
        lemma_fundamental_div_mod((size.y - 1) as int, TILE_HEIGHT as int);
        lemma_fundamental_div_mod_converse(
            (size.y + TILE_HEIGHT - 1) as int,
            TILE_HEIGHT as int,
            ty as int,
            ((size.y - 1) as int) % (TILE_HEIGHT as int),
        );
        assert(tx == tile_cols(size.x));
        assert(ty == tile_rows(size.y));
    }
    let mut out: Vec<TileRange> = Vec::new();
    let mut row: u32 = 0;
    while row < ty
        invariant
            0 <= row <= ty,
            tx == tile_cols(size.x),
            ty == tile_rows(size.y),
            tx * TILE_WIDTH >= size.x > (tx - 1) * TILE_WIDTH,
            ty * TILE_HEIGHT >= size.y > (ty - 1) * TILE_HEIGHT,
            tile_count(size) == ty * tx <= usize::MAX,
            out@.len() == row * tx,
            forall|k: int| 0 <= k < out@.len() ==> out@[k] == tile_spec(size, k),
        decreases ty - row,
    {
        let mut col: u32 = 0;
        while col < tx
            invariant
                0 <= col <= tx,
                0 <= row < ty,
                tx == tile_cols(size.x),
                ty == tile_rows(size.y),
                tx * TILE_WIDTH >= size.x > (tx - 1) * TILE_WIDTH,
                ty * TILE_HEIGHT >= size.y > (ty - 1) * TILE_HEIGHT,
                tile_count(size) == ty * tx <= usize::MAX,
                out@.len() == row * tx + col,
                forall|k: int| 0 <= k < out@.len() ==> out@[k] == tile_spec(size, k),
            decreases tx - col,
        {
            proof {
                assert(col * TILE_WIDTH < size.x) by (nonlinear_arith)
                    requires
                        0 <= col <= tx - 1,
                        (tx - 1) * TILE_WIDTH < size.x,
                        TILE_WIDTH > 0,
                ;
                assert(row * TILE_HEIGHT < size.y) by (nonlinear_arith)
                    requires
                        0 <= row <= ty - 1,
                        (ty - 1) * TILE_HEIGHT < size.y,
                        TILE_HEIGHT > 0,
                ;
            }
            let px: u32 = col * TILE_WIDTH;
            let py: u32 = row * TILE_HEIGHT;
            let sx: u32 = if size.x - px < TILE_WIDTH {
                size.x - px
            } else {
                TILE_WIDTH
            };
            let sy: u32 = if size.y - py < TILE_HEIGHT {
                size.y - py
            } else {
                TILE_HEIGHT
            };
            let t = TileRange { pos: Vec2u { x: px, y: py }, size: Vec2u { x: sx, y: sy } };
            proof {
                let k = out@.len() as int;
                lemma_fundamental_div_mod_converse(
                    k,
                    tx as int,
                    row as int,
                    col as int,
                );
                assert(t == tile_spec(size, k));
                assert(row * tx + col + 1 <= ty * tx) by (nonlinear_arith)
                    requires
                        0 <= col < tx,
                        0 <= row < ty,
                ;
            }
            out.push(t);
            col = col + 1;
        }
        row = row + 1;
        proof {
            assert(row * tx == (row - 1) * tx + tx) by (nonlinear_arith);
        }
    }
    proof {
        assert(out@.len() == ty * tx) by (nonlinear_arith)
            requires
                out@.len() == row * tx,
                row == ty,
        ;
    }
    out
}

// ---------------------------------------------------------------------------
// Back-buffer
// ---------------------------------------------------------------------------

/// Row-major cells map injectively into the linear buffer.
pub proof fn lemma_row_major(w: int, x1: int, y1: int, x2: int, y2: int)
    requires
        0 <= x1 < w,
        0 <= x2 < w,
        y1 * w + x1 == y2 * w + x2,
    ensures
        x1 == x2 && y1 == y2,
{
    assert(x1 == x2 && y1 == y2) by (nonlinear_arith)
        requires
            0 <= x1 < w,
            0 <= x2 < w,
            y1 * w + x1 == y2 * w + x2,
    ;
}

/// A cell of the grid lies inside the linear buffer.
proof fn lemma_cell_in_buffer(w: int, h: int, x: int, y: int)
    requires
        0 <= x < w,
        0 <= y < h,
    ensures
        0 <= y * w + x < w * h,
{
    assert(0 <= y * w + x < w * h) by (nonlinear_arith)
        requires
            0 <= x < w,
            0 <= y < h,
    ;
}

/// A fixed-size two-dimensional scalar buffer. Blits of pairwise disjoint,
/// in-bounds tiles write every covered cell exactly once; bounds are always
/// checked against the contract.
pub struct BackBuffer {
    pub size: Vec2u,
    pub data: Vec<u64>,
}

impl BackBuffer {
    pub open spec fn wf(&self) -> bool {
        self.data@.len() == self.size.area()
    }

    /// Allocates a `size.x × size.y` buffer of default (zero) cells.
    pub fn new(size: Vec2u) -> (r: Self)
        requires
            size.area() <= usize::MAX,
        ensures
            r.wf(),
            r.size == size,
            forall|i: int| 0 <= i < r.data@.len() ==> r.data@[i] == 0u64,
    {
        proof {
            assert(size.x * size.y >= 0) by (nonlinear_arith);
        }
        let n: usize = (size.x as usize) * (size.y as usize);
        let mut data: Vec<u64> = Vec::new();
        let mut i: usize = 0;
        while i < n
            invariant
                i <= n,
                data@.len() == i,
                forall|j: int| 0 <= j < i ==> data@[j] == 0u64,
            decreases n - i,
        {
            data.push(0);
            i = i + 1;
        }
        BackBuffer { size, data }
    }

    /// Copies a row-major tile payload into the cells of `range`. Cells
    /// outside `range` keep their value.
    pub fn blit(&mut self, range: &TileRange, tile: &[u64])
        requires
            old(self).wf(),
            range.wf_in(old(self).size),
            tile@.len() == range.area(),
        ensures
            final(self).wf(),
            final(self).size == old(self).size,
            forall|x: int, y: int|
                0 <= x < old(self).size.x && 0 <= y < old(self).size.y
                    ==> #[trigger] final(self).data@[y * old(self).size.x + x] == (
                if range.contains(x, y) {
                    tile@[range.local_index(x, y)]
                } else {
                    old(self).data@[y * old(self).size.x + x]
                }),
    {
        let w = self.size.x;
        let n = self.data.len();
        let tl = tile.len();
        let ghost orig = self.data@;
        let mut r: u32 = 0;
        while r < range.size.y
            invariant
                r <= range.size.y,
                self.size == old(self).size,
                w == self.size.x,
                self.data@.len() == orig.len() == self.size.area(),
                self.data@.len() <= usize::MAX,
                tile@.len() <= usize::MAX,
                range.wf_in(self.size),
                tile@.len() == range.area(),
                forall|x: int, y: int|
                    0 <= x < self.size.x && 0 <= y < self.size.y ==> #[trigger] self.data@[y
                        * (w as int) + x] == (if range.contains(x, y) && y < range.pos.y + r {
                        tile@[range.local_index(x, y)]
                    } else {
                        orig[y * (w as int) + x]
                    }),
            decreases range.size.y - r,
        {
            let mut c: u32 = 0;
            while c < range.size.x
                invariant
                    c <= range.size.x,
                    r < range.size.y,
                    self.size == old(self).size,
                    w == self.size.x,
                    self.data@.len() == orig.len() == self.size.area(),
                    self.data@.len() <= usize::MAX,
                    tile@.len() <= usize::MAX,
                    range.wf_in(self.size),
                    tile@.len() == range.area(),
                    forall|x: int, y: int|
                        0 <= x < self.size.x && 0 <= y < self.size.y ==> #[trigger] self.data@[y
                            * (w as int) + x] == (if range.contains(x, y) && (y < range.pos.y + r || (y
                            == range.pos.y + r && x < range.pos.x + c)) {
                            tile@[range.local_index(x, y)]
                        } else {
                            orig[y * (w as int) + x]
                        }),
                decreases range.size.x - c,
            {
                let x = range.pos.x + c;
                let y = range.pos.y + r;
                proof {
                    lemma_cell_in_buffer(w as int, self.size.y as int, x as int, y as int);
                    assert(0 <= (r as int) * (range.size.x as int) + c < range.area())
                        by (nonlinear_arith)
                        requires
                            0 <= c < range.size.x,
                            0 <= r < range.size.y,
                    ;
                    assert((y as int) * (w as int) + (x as int) <= usize::MAX);
                }
                let idx: usize = (y as usize) * (w as usize) + (x as usize);
                let lidx: usize = (r as usize) * (range.size.x as usize) + (c as usize);
                proof {
                    assert(lidx == range.local_index(x as int, y as int));
                }
                let v = tile[lidx];
                self.data.set(idx, v);
                c = c + 1;
                proof {
                    assert forall|x2: int, y2: int|
                        0 <= x2 < self.size.x && 0 <= y2 < self.size.y implies #[trigger] self.data@[
                        y2 * (w as int) + x2] == (if range.contains(x2, y2) && (y2 < range.pos.y + r || (
                        y2 == range.pos.y + r && x2 < range.pos.x + c)) {
                        tile@[range.local_index(x2, y2)]
                    } else {
                        orig[y2 * (w as int) + x2]
                    }) by {
                        lemma_cell_in_buffer((w as int), self.size.y as int, x2, y2);
                        if y2 * (w as int) + x2 == idx {
                            lemma_row_major((w as int), x2, y2, x as int, y as int);
                        }
                    }
                }
            }
            r = r + 1;
        }
        proof {
            assert forall|x: int, y: int|
                0 <= x < self.size.x && 0 <= y < self.size.y implies #[trigger] self.data@[y * (w as int)
                + x] == (if range.contains(x, y) {
                tile@[range.local_index(x, y)]
            } else {
                orig[y * (w as int) + x]
            }) by {}
        }
    }

    /// Consumes the buffer and returns its linear storage.
    pub fn into_inner(self) -> (r: Vec<u64>)
        ensures
            r == self.data,
    {
        self.data
    }
}

// ---------------------------------------------------------------------------
// Center-out ordering
// ---------------------------------------------------------------------------

/// Squared Euclidean distance from the output center to a tile's center.
pub open spec fn center_dist2(size: Vec2u, t: TileRange) -> int {
    let cx = size.x as int / 2;
    let cy = size.y as int / 2;
    let tcx = t.pos.x + t.size.x as int / 2;
    let tcy = t.pos.y + t.size.y as int / 2;
    let dx = if cx >= tcx {
        cx - tcx
    } else {
        tcx - cx
    };
    let dy = if cy >= tcy {
        cy - tcy
    } else {
        tcy - cy
    };
    dx * dx + dy * dy
}

/// The center-out order: ascending squared distance from the output center,
/// ties broken by row then column.
pub open spec fn tile_le(size: Vec2u, a: TileRange, b: TileRange) -> bool {
    let da = center_dist2(size, a);
    let db = center_dist2(size, b);
    ||| da < db
    ||| (da == db && (a.pos.y < b.pos.y || (a.pos.y == b.pos.y && a.pos.x <= b.pos.x)))
}

/// The center-out order is total.
pub proof fn lemma_tile_le_total(size: Vec2u, a: TileRange, b: TileRange)
    ensures
        tile_le(size, a, b) || tile_le(size, b, a),
{
}

/// The center-out order is transitive.
pub proof fn lemma_tile_le_trans(size: Vec2u, a: TileRange, b: TileRange, c: TileRange)
    requires
        tile_le(size, a, b),
        tile_le(size, b, c),
    ensures
        tile_le(size, a, c),
{
}

/// Compares two well-formed tiles in the center-out order.
fn tile_le_exec(size: Vec2u, a: &TileRange, b: &TileRange) -> (r: bool)
    requires
        a.wf_in(size),
        b.wf_in(size),
    ensures
        r == tile_le(size, *a, *b),
{
    let da = dist2(size, a);
    let db = dist2(size, b);
    da < db || (da == db && (a.pos.y < b.pos.y || (a.pos.y == b.pos.y && a.pos.x <= b.pos.x)))
}

/// Squared center distance of a well-formed tile.
fn dist2(size: Vec2u, t: &TileRange) -> (r: u128)
    requires
        t.wf_in(size),
    ensures
        r == center_dist2(size, *t),
{
    let cx = size.x / 2;
    let cy = size.y / 2;
    let tcx = t.pos.x + t.size.x / 2;
    let tcy = t.pos.y + t.size.y / 2;
    let dx: u64 = if cx >= tcx {
        (cx - tcx) as u64
    } else {
        (tcx - cx) as u64
    };
    let dy: u64 = if cy >= tcy {
        (cy - tcy) as u64
    } else {
        (tcy - cy) as u64
    };
    proof {
        assert(dx * dx <= 0xffff_ffff * 0xffff_ffff && dy * dy <= 0xffff_ffff * 0xffff_ffff)
            by (nonlinear_arith)
            requires
                0 <= dx <= 0xffff_ffffu64,
                0 <= dy <= 0xffff_ffffu64,
        ;
    }
    (dx * dx) as u128 + (dy * dy) as u128
}

/// Produces the center-out processing order of the `n` decomposition tiles
/// of a `size` output: a permutation of `0 .. n`, sorted so that earlier
/// tiles are never farther from the center.
#[verifier::rlimit(50)]
pub fn sort_tile_order(size: Vec2u, n: usize) -> (r: Vec<usize>)
    requires
        size.x > 0,
        size.y > 0,
        n == tile_count(size),
    ensures
        r@.len() == n,
        forall|j: int| 0 <= j < r@.len() ==> (#[trigger] r@[j]) < n,
        r@.no_duplicates(),
        forall|k: usize| k < n ==> r@.contains(k),
        forall|i: int, j: int|
            0 <= i <= j < r@.len() ==> tile_le(
                size,
                tile_spec(size, #[trigger] r@[i] as int),
                tile_spec(size, #[trigger] r@[j] as int),
            ),
{
    let mut out: Vec<usize> = Vec::new();
    let mut k: usize = 0;
    while k < n
        invariant
            k <= n,
            size.x > 0,
            size.y > 0,
            n == tile_count(size),
            out@.len() == k,
            forall|j: int| 0 <= j < out@.len() ==> (#[trigger] out@[j]) < k,
            out@.no_duplicates(),
            forall|k2: usize| k2 < k ==> out@.contains(k2),
            forall|i: int, j: int|
                0 <= i <= j < out@.len() ==> tile_le(
                    size,
                    tile_spec(size, #[trigger] out@[i] as int),
                    tile_spec(size, #[trigger] out@[j] as int),
                ),
        decreases n - k,
    {
        proof {
            lemma_tile_wf(size, k as int);
        }
        let tk = tile_at(size, k);
        // Find the insertion point: everything before it is not after `tk`.
        let mut pos: usize = 0;
        while pos < out.len()
            invariant
                pos <= out@.len(),
                size.x > 0,
                size.y > 0,
                n == tile_count(size),
                k < n,
                tk == tile_spec(size, k as int),
                tk.wf_in(size),
                out@.len() == k,
                forall|j: int| 0 <= j < out@.len() ==> (#[trigger] out@[j]) < k,
                forall|j: int|
                    0 <= j < pos ==> !tile_le(
                        size,
                        tile_spec(size, k as int),
                        tile_spec(size, #[trigger] out@[j] as int),
                    ),
            ensures
                pos <= out@.len(),
                forall|j: int|
                    0 <= j < pos ==> !tile_le(
                        size,
                        tile_spec(size, k as int),
                        tile_spec(size, #[trigger] out@[j] as int),
                    ),
                pos < out@.len() ==> tile_le(
                    size,
                    tile_spec(size, k as int),
                    tile_spec(size, out@[pos as int] as int),
                ),
            decreases out@.len() - pos,
        {
            proof {
                lemma_tile_wf(size, out@[pos as int] as int);
            }
            let tp = tile_at(size, out[pos]);
            if tile_le_exec(size, &tk, &tp) {
                break;
            }
            pos = pos + 1;
        }
        let ghost pre = out@;
        insert_at(&mut out, pos, k);
        k = k + 1;
        proof {
            assert(out@ == pre.insert(pos as int, (k - 1) as usize));
            let kk = (k - 1) as usize;
            // Permutation facts.
            assert forall|j: int| 0 <= j < out@.len() implies (#[trigger] out@[j]) < k by {
                if j < pos {
                    assert(out@[j] == pre[j]);
                } else if j == pos {
                } else {
                    assert(out@[j] == pre[j - 1]);
                }
            }
            assert(!pre.contains(kk));
            assert(out@.no_duplicates()) by {
                assert forall|i: int, j: int|
                    0 <= i < j < out@.len() implies out@[i] != out@[j] by {
                    let vi = if i < pos {
                        pre[i]
                    } else if i == pos {
                        kk
                    } else {
                        pre[i - 1]
                    };
                    assert(out@[i] == vi);
                    let vj = if j < pos {
                        pre[j]
                    } else if j == pos {
                        kk
                    } else {
                        pre[j - 1]
                    };
                    assert(out@[j] == vj);
                    if i == pos {
                        assert(pre[j - 1] < kk || pre[j - 1] != kk);
                    }
                }
            }
            assert forall|k2: usize| k2 < k implies out@.contains(k2) by {
                if k2 == kk {
                    assert(out@[pos as int] == kk);
                } else {
                    assert(pre.contains(k2));
                    let w = choose|w: int| 0 <= w < pre.len() && pre[w] == k2;
                    if w < pos {
                        assert(out@[w] == k2);
                    } else {
                        assert(out@[w + 1] == k2);
                    }
                }
            }
            // Sortedness.
            assert forall|i: int, j: int|
                0 <= i <= j < out@.len() implies tile_le(
                size,
                tile_spec(size, #[trigger] out@[i] as int),
                tile_spec(size, #[trigger] out@[j] as int),
            ) by {
                let ti = tile_spec(size, out@[i] as int);
                let tj = tile_spec(size, out@[j] as int);
                let tk_s = tile_spec(size, kk as int);
                if i < pos {
                    assert(out@[i] == pre[i]);
                }
                if j < pos {
                    assert(out@[j] == pre[j]);
                }
                if i > pos {
                    assert(out@[i] == pre[i - 1]);
                }
                if j > pos {
                    assert(out@[j] == pre[j - 1]);
                }
                if i == pos && j == pos {
                } else if j == pos {
                    // i < pos: out[i] is before the insertion point.
                    lemma_tile_le_total(size, tile_spec(size, pre[i] as int), tk_s);
                } else if i == pos {
                    // j > pos.
                } else if i < pos && j > pos {
                    lemma_tile_le_total(size, tile_spec(size, pre[i] as int), tk_s);
                    lemma_tile_le_trans(
                        size,
                        tile_spec(size, pre[i] as int),
                        tk_s,
                        tile_spec(size, pre[j - 1] as int),
                    );
                }
            }
        }
    }
    out
}

/// Reads the `k`-th decomposition tile directly from its closed form.
pub fn tile_at(size: Vec2u, k: usize) -> (r: TileRange)
    requires
        size.x > 0,
        size.y > 0,
        k < tile_count(size),
    ensures
        r == tile_spec(size, k as int),
{
    proof {
        lemma_ceil_div(size.x as int, TILE_WIDTH as int);
        lemma_ceil_div(size.y as int, TILE_HEIGHT as int);
    }
    let tx: u32 = (size.x - 1) / TILE_WIDTH + 1;
    proof {
        lemma_fundamental_div_mod((size.x - 1) as int, TILE_WIDTH as int);
        lemma_fundamental_div_mod_converse(
            (size.x + TILE_WIDTH - 1) as int,
            TILE_WIDTH as int,
            tx as int,
            ((size.x - 1) as int) % (TILE_WIDTH as int),
        );
        assert(tx == tile_cols(size.x));
        assert(tile_rows(size.y) * tx == tile_count(size));
        assert(tx >= 1);
        assert(k < tile_count(size));
    }
    let row: usize = k / (tx as usize);
    let col: usize = k % (tx as usize);
    proof {
        lemma_fundamental_div_mod(k as int, tx as int);
        assert(k as int == (tx as int) * (row as int) + (col as int));
        assert(0 <= (col as int) && (col as int) < (tx as int));
        assert(row as int == (k as int) / (tx as int) && col as int == (k as int) % (
        tx as int));
        assert(0 <= (row as int) && (row as int) < tile_rows(size.y)) by (nonlinear_arith)
            requires
                k as int == (tx as int) * (row as int) + (col as int),
                0 <= (col as int) && (col as int) < (tx as int),
                0 <= (k as int),
                (k as int) < tile_rows(size.y) * (tx as int),
                (tx as int) > 0,
        ;
        lemma_strip_start(col as int, TILE_WIDTH as int, tx as int, size.x as int);
        lemma_strip_start(
            row as int,
            TILE_HEIGHT as int,
            tile_rows(size.y),
            size.y as int,
        );
    }
    let px: u32 = (col as u32) * TILE_WIDTH;
    let py: u32 = (row as u32) * TILE_HEIGHT;
    let sx: u32 = if size.x - px < TILE_WIDTH {
        size.x - px
    } else {
        TILE_WIDTH
    };
    let sy: u32 = if size.y - py < TILE_HEIGHT {
        size.y - py
    } else {
        TILE_HEIGHT
    };
    TileRange { pos: Vec2u { x: px, y: py }, size: Vec2u { x: sx, y: sy } }
}

// ---------------------------------------------------------------------------
// The kernel interface and the run loop
// ---------------------------------------------------------------------------

/// A per-tile kernel supplied by the caller. The library never implements
/// this trait itself: the numeric kernel (closed-form dissonance curves over
/// floating-point pitches) lives with the caller, and what the renderer
/// guarantees is conditional on the kernel's contract — `process` must fill
/// the output with a pure function of the tile and the input grid.
pub trait TileRenderFunction: Sized {
    /// The payload this kernel computes for a tile: a pure function of the
    /// output size, the tile range and the input grid. The default leaves
    /// the payload abstract, pinned down only by the tile's area — enough
    /// for every guarantee here, which holds for whatever the kernel
    /// computes, as long as it computes it purely. An implementation inside
    /// verified code may override it with its exact payload.
    open spec fn out_spec(&self, size: Vec2u, range: TileRange, input: Seq<GridPoint>) -> Seq<
        u64,
    > {
        choose|s: Seq<u64>| s.len() == range.area()
    }

    /// Fills `out` with the tile's payload, row-major, one value per cell.
    fn process(&self, size: Vec2u, range: TileRange, input: &Vec<GridPoint>, out: &mut Vec<u64>)
        requires
            range.wf_in(size),
            input@.len() == size.area(),
            old(out)@.len() == 0,
        ensures
            final(out)@ == self.out_spec(size, range, input@),
            final(out)@.len() == range.area(),
    ;
}

/// The preload views: each pair's payload as a sequence.
pub open spec fn pl_views(s: Seq<(TileRange, Vec<u64>)>) -> Seq<(TileRange, Seq<u64>)> {
    s.map_values(|p: (TileRange, Vec<u64>)| (p.0, p.1@))
}

/// The payload preloaded for `range`, if any: the first pair carrying
/// exactly that range.
pub open spec fn preload_lookup(pl: Seq<(TileRange, Seq<u64>)>, range: TileRange) -> Option<
    Seq<u64>,
>
    decreases pl.len(),
{
    if pl.len() == 0 {
        None
    } else if pl[0].0 == range {
        Some(pl[0].1)
    } else {
        preload_lookup(pl.drop_first(), range)
    }
}

/// The value every successful run leaves in cell `(x, y)`: the preloaded
/// payload of the covering tile where one was supplied, else the kernel's
/// output for that tile. The result is a pure function of the kernel, the
/// size, the input grid and the preloads — independent of scheduling,
/// ordering, or which run computed it.
pub open spec fn cell_spec<F: TileRenderFunction>(
    f: F,
    size: Vec2u,
    input: Seq<GridPoint>,
    pl: Seq<(TileRange, Seq<u64>)>,
    x: int,
    y: int,
) -> u64 {
    let t = tile_spec(size, tile_index_of(size, x, y));
    match preload_lookup(pl, t) {
        Some(p) => p[t.local_index(x, y)],
        None => f.out_spec(size, t, input)[t.local_index(x, y)],
    }
}

/// Finds the first preload pair carrying exactly `range`.
pub fn find_preload(preloads: &Vec<(TileRange, Vec<u64>)>, range: &TileRange) -> (r: Option<usize>)
    ensures
        match r {
            Some(i) => i < preloads@.len() && preloads@[i as int].0 == *range && preload_lookup(
                pl_views(preloads@),
                *range,
            ) == Some(preloads@[i as int].1@),
            None => preload_lookup(pl_views(preloads@), *range) is None,
        },
{
    let ghost full = pl_views(preloads@);
    proof {
        assert(full.skip(0) =~= full);
    }
    let mut i: usize = 0;
    while i < preloads.len()
        invariant
            i <= preloads@.len(),
            full == pl_views(preloads@),
            preload_lookup(full, *range) == preload_lookup(full.skip(i as int), *range),
        decreases preloads@.len() - i,
    {
        if ranges_eq(&preloads[i].0, range) {
            proof {
                assert(full.skip(i as int)[0] == (preloads@[i as int].0, preloads@[i as int].1@));
            }
            return Some(i);
        }
        i = i + 1;
        proof {
            assert(full.skip(i - 1)[0] == (preloads@[i - 1].0, preloads@[i - 1].1@));
            assert(full.skip(i - 1).drop_first() =~= full.skip(i as int));
        }
    }
    proof {
        assert(full.skip(preloads@.len() as int) =~= Seq::<(TileRange, Seq<u64>)>::empty());
    }
    None
}

/// Field-wise equality of two tile ranges.
pub fn ranges_eq(a: &TileRange, b: &TileRange) -> (r: bool)
    ensures
        r == (*a == *b),
{
    a.pos.x == b.pos.x && a.pos.y == b.pos.y && a.size.x == b.size.x && a.size.y == b.size.y
}

/// Whether some tile among the first `upto` of the processing order covers
/// the cell `(x, y)`.
pub open spec fn covered(size: Vec2u, order: Seq<usize>, upto: int, x: int, y: int) -> bool {
    exists|j: int| 0 <= j < upto && tile_spec(size, (#[trigger] order[j]) as int).contains(x, y)
}

/// The tiled renderer: wraps a kernel and runs it over a decomposed output.
pub struct TileRenderer<F: TileRenderFunction> {
    pub f: F,
}

impl<F: TileRenderFunction> TileRenderer<F> {
    pub fn new(f: F) -> (r: Self)
        ensures
            r.f == f,
    {
        TileRenderer { f }
    }

    /// Renders a `size` output: decomposes it into tiles, orders them
    /// center-out, and for each tile either blits its preloaded payload or
    /// invokes the kernel, polling the cancellation token between tiles.
    /// On success every cell of the result is exactly `cell_spec` — a pure
    /// function of kernel, size, input and preloads, so two successful runs
    /// of equal inputs return bit-identical maps, whatever the order or
    /// interleaving of the work. On cancellation the partial buffer is
    /// discarded.
    pub fn run(
        &self,
        size: Vec2u,
        input: &Vec<GridPoint>,
        preloads: &Vec<(TileRange, Vec<u64>)>,
        cancel: &CancelToken,
    ) -> (r: CancelResult<Vec<u64>>)
        requires
            size.x > 0,
            size.y > 0,
            size.area() <= usize::MAX,
            tile_count(size) <= usize::MAX,
            input@.len() == size.area(),
            forall|i: int|
                0 <= i < preloads@.len() ==> (#[trigger] preloads@[i]).1@.len()
                    == preloads@[i].0.area(),
        ensures
            r matches Ok(data) ==> data@.len() == size.area() && (forall|x: int, y: int|
                0 <= x < size.x && 0 <= y < size.y ==> #[trigger] data@[y * size.x + x]
                    == cell_spec(self.f, size, input@, pl_views(preloads@), x, y)),
    {
        let n: usize = tile_total(size);
        let order = sort_tile_order(size, n);
        let mut buf = BackBuffer::new(size);
        proof {
            assert forall|x: int, y: int|
                0 <= x < size.x && 0 <= y < size.y implies #[trigger] buf.data@[y * size.x + x]
                == 0u64 by {
                lemma_cell_in_buffer(size.x as int, size.y as int, x, y);
            }
        }
        let mut done: usize = 0;
        let mut cancelled = false;
        while done < n && !cancelled
            invariant
                done <= n,
                size.x > 0,
                size.y > 0,
                size.area() <= usize::MAX,
                n == tile_count(size),
                input@.len() == size.area(),
                forall|i: int|
                    0 <= i < preloads@.len() ==> (#[trigger] preloads@[i]).1@.len()
                        == preloads@[i].0.area(),
                order@.len() == n,
                forall|j: int| 0 <= j < order@.len() ==> (#[trigger] order@[j]) < n,
                buf.wf(),
                buf.size == size,
                forall|x: int, y: int|
                    0 <= x < size.x && 0 <= y < size.y ==> #[trigger] buf.data@[y * size.x + x]
                        == (if covered(size, order@, done as int, x, y) {
                        cell_spec(self.f, size, input@, pl_views(preloads@), x, y)
                    } else {
                        0u64
                    }),
            decreases n - done,
        {
            let k = order[done];
            proof {
                lemma_tile_wf(size, k as int);
            }
            let range = tile_at(size, k);
            let ghost pre_data = buf.data@;
            match find_preload(preloads, &range) {
                Some(i) => {
                    buf.blit(&range, preloads[i].1.as_slice());
                },
                None => {
                    let mut out: Vec<u64> = Vec::new();
                    self.f.process(size, range, input, &mut out);
                    buf.blit(&range, out.as_slice());
                },
            }
            done = done + 1;
            match cancel.try_weak() {
                Ok(()) => {},
                Err(_) => {
                    cancelled = true;
                },
            }
            proof {
                assert forall|x: int, y: int|
                    0 <= x < size.x && 0 <= y < size.y implies #[trigger] buf.data@[y * size.x + x]
                    == (if covered(size, order@, done as int, x, y) {
                    cell_spec(self.f, size, input@, pl_views(preloads@), x, y)
                } else {
                    0u64
                }) by {
                    if range.contains(x, y) {
                        lemma_tile_in_bounds(size, k as int, x, y);
                        lemma_tile_cover(size, x, y);
                        assert(tile_index_of(size, x, y) == k);
                        assert(covered(size, order@, done as int, x, y)) by {
                            assert(tile_spec(
                                size,
                                (order@[done - 1]) as int,
                            ).contains(x, y));
                        }
                    } else {
                        assert(buf.data@[y * size.x + x] == pre_data[y * size.x + x]);
                        assert(covered(size, order@, done as int, x, y) == covered(
                            size,
                            order@,
                            done - 1,
                            x,
                            y,
                        )) by {
                            if covered(size, order@, done as int, x, y) {
                                let j = choose|j: int|
                                    0 <= j < done && tile_spec(
                                        size,
                                        (#[trigger] order@[j]) as int,
                                    ).contains(x, y);
                                if j == done - 1 {
                                    assert(false);
                                } else {
                                    assert(covered(size, order@, done - 1, x, y));
                                }
                            }
                        }
                    }
                }
            }
        }
        if cancelled {
            return Err(crate::cancel::CancelError::Cancelled);
        }
        match cancel.try_strong() {
            Ok(()) => {
                proof {
                    assert forall|x: int, y: int|
                        0 <= x < size.x && 0 <= y < size.y implies covered(
                        size,
                        order@,
                        n as int,
                        x,
                        y,
                    ) by {
                        lemma_tile_cover(size, x, y);
                        let k = tile_index_of(size, x, y);
                        assert(order@.contains(k as usize));
                        let j = choose|j: int| 0 <= j < order@.len() && order@[j] == k as usize;
                        assert(tile_spec(size, (order@[j]) as int).contains(x, y));
                    }
                }
                Ok(buf.into_inner())
            },
            Err(e) => Err(e),
        }
    }
}

/// Order independence: any two buffers that both satisfy the pointwise
/// cell characterization of a successful run are bit-identical, whatever
/// worker count, tile ordering or interleaving produced them.
pub proof fn lemma_result_deterministic<F: TileRenderFunction>(
    f: F,
    size: Vec2u,
    input: Seq<GridPoint>,
    pl: Seq<(TileRange, Seq<u64>)>,
    d1: Seq<u64>,
    d2: Seq<u64>,
)
    requires
        size.x > 0,
        size.y > 0,
        d1.len() == size.area(),
        d2.len() == size.area(),
        forall|x: int, y: int|
            0 <= x < size.x && 0 <= y < size.y ==> #[trigger] d1[y * size.x + x] == cell_spec(
                f,
                size,
                input,
                pl,
                x,
                y,
            ),
        forall|x: int, y: int|
            0 <= x < size.x && 0 <= y < size.y ==> #[trigger] d2[y * size.x + x] == cell_spec(
                f,
                size,
                input,
                pl,
                x,
                y,
            ),
    ensures
        d1 == d2,
{
    assert forall|i: int| 0 <= i < d1.len() implies d1[i] == d2[i] by {
        let w = size.x as int;
        let x = i % w;
        let y = i / w;
        lemma_fundamental_div_mod(i, w);
        assert(i == w * y + x);
        assert(0 <= x < w);
        assert(0 <= y < size.y) by (nonlinear_arith)
            requires
                i == w * y + x,
                0 <= x < w,
                0 <= i,
                i < size.x * size.y,
                w == size.x,
                w > 0,
        ;
        assert(i == y * w + x) by (nonlinear_arith)
            requires
                i == w * y + x,
        ;
        assert(d1[y * w + x] == cell_spec(f, size, input, pl, x, y));
        assert(d2[y * w + x] == cell_spec(f, size, input, pl, x, y));
    }
    assert(d1 =~= d2);
}

/// Resume equivalence: preloads that carry exactly the kernel's own output
/// for their tiles never change a cell of the rendered map — a resumed
/// pass ends with the same map an uninterrupted one computes.
pub proof fn lemma_resume_equivalence<F: TileRenderFunction>(
    f: F,
    size: Vec2u,
    input: Seq<GridPoint>,
    pl: Seq<(TileRange, Seq<u64>)>,
)
    requires
        forall|t: TileRange| (match #[trigger] preload_lookup(pl, t) {
            Some(p) => p == f.out_spec(size, t, input),
            None => true,
        }),
    ensures
        forall|x: int, y: int|
            0 <= x < size.x && 0 <= y < size.y ==> #[trigger] cell_spec(f, size, input, pl, x, y)
                == cell_spec(f, size, input, Seq::<(TileRange, Seq<u64>)>::empty(), x, y),
{
    assert forall|x: int, y: int|
        0 <= x < size.x && 0 <= y < size.y implies #[trigger] cell_spec(f, size, input, pl, x, y)
        == cell_spec(f, size, input, Seq::<(TileRange, Seq<u64>)>::empty(), x, y) by {
        let t = tile_spec(size, tile_index_of(size, x, y));
        assert(preload_lookup(Seq::<(TileRange, Seq<u64>)>::empty(), t) is None);
        match preload_lookup(pl, t) {
            Some(p) => {
                assert(p == f.out_spec(size, t, input));
            },
            None => {},
        }
    }
}

/// Inserts an element at a position, shifting the rest right.
fn insert_at(v: &mut Vec<usize>, pos: usize, t: usize)
    requires
        pos <= old(v)@.len(),
        old(v)@.len() < usize::MAX,
    ensures
        final(v)@ == old(v)@.insert(pos as int, t),
{
    let ghost w = old(v)@;
    v.push(t);
    let mut j: usize = v.len() - 1;
    while j > pos
        invariant
            pos <= j <= w.len(),
            v@.len() == w.len() + 1,
            forall|m: int| 0 <= m < j ==> v@[m] == w[m],
            forall|m: int| j < m < v@.len() ==> v@[m] == w[m - 1],
        decreases j,
    {
        let tmp = v[j - 1];
        v.set(j, tmp);
        j = j - 1;
    }
    v.set(pos, t);
    proof {
        assert(v@ =~= w.insert(pos as int, t));
    }
}

} // verus!
