//! Theory 1: discrete space, and the storage that makes lazy rendering real.
//!
//! The world is a torus of cells, stored twice at two fidelities: one byte per
//! cell, authoritative inside *resolved* blocks, and one density per block,
//! authoritative inside unresolved ones. A block is resolved only while
//! something observes it.
//!
//! [`Geometry`] lays a block partition over the fine grid. The partition is
//! exact, and this file proves it: every cell lies in exactly one block, and
//! the blocks' cell counts add up to the grid, ragged edges included.

use vstd::prelude::*;
use crate::rng::{Rng, derive_spec, draw};

verus! {

/// Smallest number of `d`-sized pieces that cover `a`.
pub open spec fn ceil_div(a: int, d: int) -> int {
    (a + d - 1) / d
}

pub open spec fn min_int(a: int, b: int) -> int {
    if a <= b {
        a
    } else {
        b
    }
}

/// Fine-grid dimensions and the block partition laid over them.
#[derive(Clone, Copy, Debug, PartialEq, Eq, Structural)]
pub struct Geometry {
    /// Fine grid width in cells.
    pub w: usize,
    /// Fine grid height in cells.
    pub h: usize,
    /// Fine cells per block edge.
    pub block: usize,
    /// Blocks across.
    pub bw: usize,
    /// Blocks down.
    pub bh: usize,
    /// Fine cells per base cell, per axis. 1 when space is discrete.
    pub scale: usize,
}

impl Geometry {
    /// What [`Geometry::new`] guarantees: positive block and scale, and a
    /// block partition just large enough to cover the grid.
    pub open spec fn well_formed(&self) -> bool {
        &&& self.block >= 1
        &&& self.scale >= 1
        &&& self.bw == ceil_div(self.w as int, self.block as int)
        &&& self.bh == ceil_div(self.h as int, self.block as int)
    }

    pub open spec fn cells_spec(&self) -> int {
        self.w * self.h
    }

    pub open spec fn blocks_spec(&self) -> int {
        self.bw * self.bh
    }

    pub open spec fn idx_spec(&self, x: int, y: int) -> int {
        y * self.w + x
    }

    pub open spec fn block_of_spec(&self, x: int, y: int) -> int {
        (y / self.block as int) * self.bw + x / self.block as int
    }

    /// Half-open fine-cell bounds `(x0, y0, x1, y1)` of block `b`.
    pub open spec fn bounds_spec(&self, b: int) -> (int, int, int, int) {
        let x0 = (b % self.bw as int) * self.block;
        let y0 = (b / self.bw as int) * self.block;
        (x0, y0, min_int(x0 + self.block, self.w as int), min_int(y0 + self.block, self.h as int))
    }

    pub open spec fn block_cells_spec(&self, b: int) -> int {
        let (x0, y0, x1, y1) = self.bounds_spec(b);
        (x1 - x0) * (y1 - y0)
    }

    /// Whether fine cell `(x, y)` lies inside block `b`'s bounds.
    pub open spec fn in_block(&self, b: int, x: int, y: int) -> bool {
        let (x0, y0, x1, y1) = self.bounds_spec(b);
        x0 <= x < x1 && y0 <= y < y1
    }

    /// Whether block `b`'s bounds can be computed without overflow.
    pub open spec fn bounds_fit(&self, b: int) -> bool {
        &&& self.bw > 0
        &&& (b % self.bw as int) * self.block + self.block <= usize::MAX
        &&& (b / self.bw as int) * self.block + self.block <= usize::MAX
    }

    /// `base_w`/`base_h` are in base cells; the fine grid is `scale` times
    /// finer per axis. Block edges are rounded up so the partition covers the
    /// grid even when it does not divide evenly.
    pub fn new(base_w: usize, base_h: usize, scale: usize, block: usize) -> (g: Self)
        requires
            scale >= 1,
            block >= 1,
            base_w * scale <= usize::MAX,
            base_h * scale <= usize::MAX,
        ensures
            g.well_formed(),
            g.w == base_w * scale,
            g.h == base_h * scale,
            g.block == block,
            g.scale == scale,
    {
        let w = base_w * scale;
        let h = base_h * scale;
        let bw = div_ceil(w, block);
        let bh = div_ceil(h, block);
        Geometry { w, h, block, bw, bh, scale }
    }

    pub fn cells(&self) -> (r: usize)
        requires
            self.w * self.h <= usize::MAX,
        ensures
            r == self.cells_spec(),
    {
        self.w * self.h
    }

    pub fn blocks(&self) -> (r: usize)
        requires
            self.bw * self.bh <= usize::MAX,
        ensures
            r == self.blocks_spec(),
    {
        self.bw * self.bh
    }

    pub fn idx(&self, x: usize, y: usize) -> (r: usize)
        requires
            y * self.w + x <= usize::MAX,
        ensures
            r == self.idx_spec(x as int, y as int),
    {
        y * self.w + x
    }

    /// Block index owning a fine cell.
    pub fn block_of(&self, x: usize, y: usize) -> (r: usize)
        requires
            self.block >= 1,
            (y / self.block) * self.bw + x / self.block <= usize::MAX,
        ensures
            r == self.block_of_spec(x as int, y as int),
    {
        (y / self.block) * self.bw + (x / self.block)
    }

    /// Half-open fine-cell bounds of a block: `(x0, y0, x1, y1)`.
    pub fn block_bounds(&self, b: usize) -> (r: (usize, usize, usize, usize))
        requires
            self.bounds_fit(b as int),
        ensures
            (r.0 as int, r.1 as int, r.2 as int, r.3 as int) == self.bounds_spec(b as int),
    {
        let bx = b % self.bw;
        let by = b / self.bw;
        proof {
            lemma_mul_le(bx as int, self.bw as int, self.block as int);
        }
        let x0 = bx * self.block;
        let y0 = by * self.block;
        let x1 = if x0 + self.block <= self.w { x0 + self.block } else { self.w };
        let y1 = if y0 + self.block <= self.h { y0 + self.block } else { self.h };
        (x0, y0, x1, y1)
    }

    /// Cells actually inside a block, accounting for a ragged right/bottom edge.
    pub fn block_cells(&self, b: usize) -> (r: usize)
        requires
            self.bounds_fit(b as int),
            self.bounds_spec(b as int).0 <= self.w,
            self.bounds_spec(b as int).1 <= self.h,
            self.w * self.h <= usize::MAX,
        ensures
            r == self.block_cells_spec(b as int),
    {
        let (x0, y0, x1, y1) = self.block_bounds(b);
        proof {
            let dx = (x1 - x0) as int;
            let dy = (y1 - y0) as int;
            lemma_mul_le(dx, self.w as int, dy);
            lemma_mul_le(dy, self.h as int, self.w as int);
            vstd::arithmetic::mul::lemma_mul_is_commutative(dy, self.w as int);
            vstd::arithmetic::mul::lemma_mul_is_commutative(self.h as int, self.w as int);
            assert(dx * dy <= self.w * self.h);
        }
        (x1 - x0) * (y1 - y0)
    }

    /// Toroidal wrap. The universe has no edge for a probe to fall off.
    pub fn wrap_x(&self, x: isize) -> (r: usize)
        requires
            0 < self.w <= isize::MAX,
        ensures
            r == (x as int) % (self.w as int),
    {
        wrap(x, self.w)
    }

    pub fn wrap_y(&self, y: isize) -> (r: usize)
        requires
            0 < self.h <= isize::MAX,
        ensures
            r == (y as int) % (self.h as int),
    {
        wrap(y, self.h)
    }
}

// ---------------------------------------------------------------------------
// The partition is exact.
// ---------------------------------------------------------------------------

/// Cells in the first `n` blocks, in index order.
pub open spec fn cells_in_first_blocks(g: Geometry, n: nat) -> int
    decreases n,
{
    if n == 0 {
        0
    } else {
        cells_in_first_blocks(g, (n - 1) as nat) + g.block_cells_spec(n - 1)
    }
}

/// Width of block column `i`.
spec fn col_width(g: Geometry, i: int) -> int {
    min_int(i * g.block + g.block, g.w as int) - i * g.block
}

/// Height of block row `j`.
spec fn row_height(g: Geometry, j: int) -> int {
    min_int(j * g.block + g.block, g.h as int) - j * g.block
}

/// Facts about covering `a` with `d`-sized pieces.
pub proof fn lemma_ceil_cover(a: int, d: int, k: int)
    requires
        a >= 0,
        d >= 1,
    ensures
        ceil_div(a, d) * d >= a,
        ceil_div(a, d) >= 0,
        0 <= k < ceil_div(a, d) ==> k * d < a,
        k >= ceil_div(a, d) ==> k * d >= a,
{
    lemma_ceil_div(a, d);
    let q = a / d;
    let r = a % d;
    vstd::arithmetic::div_mod::lemma_fundamental_div_mod(a, d);
    vstd::arithmetic::div_mod::lemma_mod_bound(a, d);
    vstd::arithmetic::mul::lemma_mul_is_commutative(d, q);
    vstd::arithmetic::div_mod::lemma_div_pos_is_pos(a, d);
    let c = ceil_div(a, d);
    assert(c * d >= a) by (nonlinear_arith)
        requires
            a == q * d + r,
            0 <= r < d,
            c == q + (if r == 0 { 0int } else { 1int }),
    ;
    if 0 <= k < c {
        assert(k * d < a) by (nonlinear_arith)
            requires
                a == q * d + r,
                0 <= r < d,
                c == q + (if r == 0 { 0int } else { 1int }),
                0 <= k < c,
                d >= 1,
        ;
    }
    if k >= c {
        lemma_mul_le(c, k, d);
    }
}

/// Block `j * bw + i` is column `i` of row `j`.
proof fn lemma_block_coords(g: Geometry, i: int, j: int)
    requires
        g.well_formed(),
        g.bw > 0,
        0 <= i < g.bw,
        0 <= j,
    ensures
        (j * g.bw + i) % (g.bw as int) == i,
        (j * g.bw + i) / (g.bw as int) == j,
        g.block_cells_spec(j * g.bw + i) == col_width(g, i) * row_height(g, j),
{
    vstd::arithmetic::div_mod::lemma_fundamental_div_mod_converse(j * g.bw + i, g.bw as int, j, i);
}

/// Law: every cell of the grid lies inside the bounds of the block that
/// [`Geometry::block_of`] names, and that block is one of the partition's.
pub proof fn lemma_block_of_contains(g: Geometry, x: int, y: int)
    requires
        g.well_formed(),
        0 <= x < g.w,
        0 <= y < g.h,
    ensures
        0 <= g.block_of_spec(x, y) < g.blocks_spec(),
        g.in_block(g.block_of_spec(x, y), x, y),
{
    let d = g.block as int;
    let qx = x / d;
    let qy = y / d;
    vstd::arithmetic::div_mod::lemma_fundamental_div_mod(x, d);
    vstd::arithmetic::div_mod::lemma_fundamental_div_mod(y, d);
    vstd::arithmetic::div_mod::lemma_mod_bound(x, d);
    vstd::arithmetic::div_mod::lemma_mod_bound(y, d);
    vstd::arithmetic::mul::lemma_mul_is_commutative(d, qx);
    vstd::arithmetic::mul::lemma_mul_is_commutative(d, qy);
    vstd::arithmetic::div_mod::lemma_div_pos_is_pos(x, d);
    vstd::arithmetic::div_mod::lemma_div_pos_is_pos(y, d);
    lemma_ceil_cover(g.w as int, d, qx);
    lemma_ceil_cover(g.h as int, d, qy);
    assert(qx < g.bw);
    assert(qy < g.bh);
    let b = qy * g.bw + qx;
    lemma_block_coords(g, qx, qy);
    assert(b < g.bw * g.bh) by (nonlinear_arith)
        requires
            b == qy * g.bw + qx,
            0 <= qx < g.bw,
            0 <= qy < g.bh,
    ;
    assert(b >= 0) by (nonlinear_arith)
        requires
            b == qy * g.bw + qx,
            0 <= qx,
            0 <= qy,
            g.bw >= 0,
    ;
}

/// Law: a cell inside a block's bounds is a cell of the grid, and
/// [`Geometry::block_of`] names exactly that block. Together with
/// [`lemma_block_of_contains`], every cell lies in one block and one only.
pub proof fn lemma_in_block_is_block_of(g: Geometry, b: int, x: int, y: int)
    requires
        g.well_formed(),
        0 <= b < g.blocks_spec(),
        g.in_block(b, x, y),
    ensures
        0 <= x < g.w,
        0 <= y < g.h,
        g.block_of_spec(x, y) == b,
{
    let d = g.block as int;
    assert(g.bw > 0) by {
        if g.bw == 0 {
            assert(g.bw * g.bh == 0);
        }
    }
    let i = b % (g.bw as int);
    let j = b / (g.bw as int);
    vstd::arithmetic::div_mod::lemma_fundamental_div_mod(b, g.bw as int);
    vstd::arithmetic::div_mod::lemma_mod_bound(b, g.bw as int);
    vstd::arithmetic::div_mod::lemma_div_pos_is_pos(b, g.bw as int);
    vstd::arithmetic::mul::lemma_mul_is_commutative(g.bw as int, j);
    assert(i * d >= 0 && j * d >= 0) by (nonlinear_arith)
        requires
            i >= 0,
            j >= 0,
            d >= 1,
    ;
    vstd::arithmetic::div_mod::lemma_fundamental_div_mod_converse(x, d, i, x - i * d);
    vstd::arithmetic::div_mod::lemma_fundamental_div_mod_converse(y, d, j, y - j * d);
}

/// Law: the blocks tile the grid exactly. Their cell counts, ragged right and
/// bottom edges included, add up to the number of cells.
pub proof fn lemma_blocks_tile_the_grid(g: Geometry)
    requires
        g.well_formed(),
    ensures
        cells_in_first_blocks(g, g.blocks_spec() as nat) == g.cells_spec(),
{
    let d = g.block as int;
    lemma_ceil_cover(g.w as int, d, 0);
    lemma_ceil_cover(g.h as int, d, 0);
    if g.bw == 0 {
        // An empty row of blocks means an empty grid.
        assert(g.w == 0) by {
            lemma_ceil_cover(g.w as int, d, 0);
        }
        assert(g.bw * g.bh == 0);
        assert(g.w * g.h == 0);
    } else {
        lemma_prefix_rows(g, g.bh as int);
        lemma_ceil_cover(g.h as int, d, g.bh as int);
        vstd::arithmetic::mul::lemma_mul_is_commutative(g.bh as int, g.bw as int);
        assert(min_int(g.bh * d, g.h as int) == g.h);
    }
}

/// The first `j` rows of blocks hold `w * min(j * block, h)` cells.
proof fn lemma_prefix_rows(g: Geometry, j: int)
    requires
        g.well_formed(),
        g.bw > 0,
        0 <= j <= g.bh,
    ensures
        j * g.bw >= 0,
        cells_in_first_blocks(g, (j * g.bw) as nat) == g.w * min_int(j * g.block, g.h as int),
    decreases j,
{
    let d = g.block as int;
    if j == 0 {
        assert(j * g.bw == 0);
        assert(j * d == 0);
        assert(g.w * min_int(j * d, g.h as int) == 0) by (nonlinear_arith)
            requires
                j * d == 0,
                g.h >= 0,
        ;
    } else {
        lemma_prefix_rows(g, j - 1);
        lemma_prefix_columns(g, j - 1, g.bw as int);
        lemma_ceil_cover(g.w as int, d, g.bw as int);
        lemma_ceil_cover(g.h as int, d, j - 1);
        assert((j - 1) * g.bw + g.bw == j * g.bw) by (nonlinear_arith);
        assert((j - 1) * d + d == j * d) by (nonlinear_arith);
        let top = min_int((j - 1) * d, g.h as int);
        assert(top + row_height(g, j - 1) == min_int(j * d, g.h as int));
        assert(min_int(g.bw * d, g.w as int) == g.w);
        let n = ((j - 1) * g.bw + g.bw) as nat;
        assert(n == (j * g.bw) as nat);
        assert(cells_in_first_blocks(g, n) == g.w * top + row_height(g, j - 1) * g.w);
        assert(g.w * top + row_height(g, j - 1) * g.w == g.w * min_int(j * d, g.h as int))
            by (nonlinear_arith)
            requires
                top + row_height(g, j - 1) == min_int(j * d, g.h as int),
        ;
    }
}

/// Within row `j`, the first `i` blocks add `row_height(j) * min(i * block, w)`.
proof fn lemma_prefix_columns(g: Geometry, j: int, i: int)
    requires
        g.well_formed(),
        g.bw > 0,
        0 <= j < g.bh,
        0 <= i <= g.bw,
        cells_in_first_blocks(g, (j * g.bw) as nat) == g.w * min_int(j * g.block, g.h as int),
        j * g.bw >= 0,
    ensures
        j * g.bw + i >= 0,
        cells_in_first_blocks(g, (j * g.bw + i) as nat) == g.w * min_int(j * g.block, g.h as int)
            + row_height(g, j) * min_int(i * g.block, g.w as int),
    decreases i,
{
    let d = g.block as int;
    if i == 0 {
        assert(i * d == 0);
        let rh = row_height(g, j);
        assert(rh * min_int(i * d, g.w as int) == 0) by (nonlinear_arith)
            requires
                i * d == 0,
                g.w >= 0,
        ;
    } else {
        lemma_prefix_columns(g, j, i - 1);
        lemma_block_coords(g, i - 1, j);
        lemma_ceil_cover(g.w as int, d, i - 1);
        assert((i - 1) * d + d == i * d) by (nonlinear_arith);
        let left = min_int((i - 1) * d, g.w as int);
        assert(left + col_width(g, i - 1) == min_int(i * d, g.w as int));
        let rh = row_height(g, j);
        assert(rh * left + col_width(g, i - 1) * rh == rh * min_int(i * d, g.w as int))
            by (nonlinear_arith)
            requires
                left + col_width(g, i - 1) == min_int(i * d, g.w as int),
        ;
        let n = (j * g.bw + i) as nat;
        assert(n - 1 == j * g.bw + (i - 1));
        assert(cells_in_first_blocks(g, n) == cells_in_first_blocks(g, (n - 1) as nat)
            + g.block_cells_spec(n - 1));
        assert(g.block_cells_spec(n - 1) == col_width(g, i - 1) * rh);
        let h0 = g.w * min_int(j * d, g.h as int);
        assert(cells_in_first_blocks(g, (n - 1) as nat) == h0 + rh * left);
        assert(cells_in_first_blocks(g, n) == h0 + rh * min_int(i * d, g.w as int));
    }
}

// ---------------------------------------------------------------------------
// The world's state.
// ---------------------------------------------------------------------------

/// Salt of the fingerprint's first stream.
pub const FINGERPRINT_SALT: u64 = 0x554E_4956_4552_5345;

impl Geometry {
    /// Whether every count and coordinate this geometry produces fits in
    /// `usize`.
    pub open spec fn fits_usize(&self) -> bool {
        &&& self.w * self.h <= usize::MAX
        &&& self.w + self.block <= usize::MAX
        &&& self.h + self.block <= usize::MAX
    }
}

/// A block of a well-formed geometry is non-empty, starts inside the grid,
/// and its bounds can be computed.
pub proof fn lemma_block_in_range(g: Geometry, b: int)
    requires
        g.well_formed(),
        g.fits_usize(),
        0 <= b < g.blocks_spec(),
    ensures
        g.bw > 0,
        g.bounds_fit(b),
        0 <= g.bounds_spec(b).0 < g.w,
        0 <= g.bounds_spec(b).1 < g.h,
        g.bounds_spec(b).0 < g.bounds_spec(b).2 <= g.w,
        g.bounds_spec(b).1 < g.bounds_spec(b).3 <= g.h,
        1 <= g.block_cells_spec(b),
{
    assert(g.bw > 0) by {
        if g.bw == 0 {
            assert(g.bw * g.bh == 0);
        }
    }
    let d = g.block as int;
    let i = b % (g.bw as int);
    let j = b / (g.bw as int);
    vstd::arithmetic::div_mod::lemma_fundamental_div_mod(b, g.bw as int);
    vstd::arithmetic::div_mod::lemma_mod_bound(b, g.bw as int);
    vstd::arithmetic::div_mod::lemma_div_pos_is_pos(b, g.bw as int);
    vstd::arithmetic::mul::lemma_mul_is_commutative(g.bw as int, j);
    assert(j < g.bh) by (nonlinear_arith)
        requires
            b == j * g.bw + i,
            0 <= i,
            b < g.bw * g.bh,
            g.bw > 0,
    ;
    lemma_ceil_cover(g.w as int, d, i);
    lemma_ceil_cover(g.h as int, d, j);
    assert(i * d >= 0 && j * d >= 0) by (nonlinear_arith)
        requires
            i >= 0,
            j >= 0,
            d >= 1,
    ;
    let (x0, y0, x1, y1) = g.bounds_spec(b);
    assert((x1 - x0) * (y1 - y0) >= 1) by (nonlinear_arith)
        requires
            x1 - x0 >= 1,
            y1 - y0 >= 1,
    ;
}

/// One fold of the fingerprint: the value `v` at index `i` of the field
/// tagged `tag`, mixed into the running hash `h`.
pub open spec fn fold_step(h: u64, v: u64, i: int, tag: u64) -> u64 {
    draw(derive_spec(h, v, i as u64, tag))
}

/// The running hash after folding the first `n` values of `s`.
pub open spec fn fold_seq(h: u64, s: Seq<u64>, tag: u64, n: nat) -> u64
    decreases n,
{
    if n == 0 {
        h
    } else {
        fold_step(fold_seq(h, s, tag, (n - 1) as nat), s[n - 1], n - 1, tag)
    }
}

pub open spec fn bool_bit(r: bool) -> u64 {
    if r {
        1
    } else {
        0
    }
}

/// One universe's state at one instant.
#[derive(Clone, Debug)]
pub struct World {
    pub geom: Geometry,
    /// Per-cell occupancy, 0 or 1. Meaningful only inside resolved blocks.
    pub cells: Vec<u8>,
    /// Per-block mean occupancy in `[0, 1]`, held as the IEEE-754 bit pattern
    /// of its `f64`. Authoritative when unresolved, and kept in step with
    /// `cells` when resolved. Densities are compared and folded by their exact
    /// bits, never by a rounded decimal.
    pub coarse: Vec<u64>,
    /// Whether each block is currently computed per-cell.
    pub resolved: Vec<bool>,
}

impl World {
    /// One cell per grid position, one density and one flag per block.
    pub open spec fn well_formed(&self) -> bool {
        &&& self.geom.well_formed()
        &&& self.geom.fits_usize()
        &&& self.cells.len() == self.geom.cells_spec()
        &&& self.coarse.len() == self.geom.blocks_spec()
        &&& self.resolved.len() == self.geom.blocks_spec()
    }

    pub open spec fn cells_u64(&self) -> Seq<u64> {
        self.cells@.map_values(|c: u8| c as u64)
    }

    pub open spec fn resolved_u64(&self) -> Seq<u64> {
        self.resolved@.map_values(|r: bool| bool_bit(r))
    }

    /// The entire state reduced to one number.
    pub open spec fn fingerprint_spec(&self) -> u64 {
        let start = draw(
            derive_spec(
                FINGERPRINT_SALT,
                self.geom.w as u64,
                self.geom.h as u64,
                self.geom.block as u64,
            ),
        );
        let after_cells = fold_seq(start, self.cells_u64(), 1, self.cells.len() as nat);
        let after_coarse = fold_seq(after_cells, self.coarse@, 2, self.coarse.len() as nat);
        let after_flags = fold_seq(after_coarse, self.resolved_u64(), 3, self.resolved.len() as nat);
        draw(after_flags)
    }

    /// Cells held by the first `n` blocks that are resolved.
    pub open spec fn resolved_cells_in(&self, n: nat) -> int
        decreases n,
    {
        if n == 0 {
            0
        } else {
            self.resolved_cells_in((n - 1) as nat) + (if self.resolved[n - 1] {
                self.geom.block_cells_spec(n - 1)
            } else {
                0
            })
        }
    }

    /// Bytes a resource-honest implementation would hold.
    pub open spec fn live_state_bytes_spec(&self) -> int {
        self.resolved_cells_in(self.geom.blocks_spec() as nat) + self.geom.blocks_spec() * (8 + 1)
    }

    /// Bytes this implementation really holds.
    pub open spec fn allocated_bytes_spec(&self) -> int {
        self.cells.len() + self.coarse.len() * 8 + self.resolved.len()
    }

    /// Bytes a resource-honest implementation would hold: cells only for
    /// resolved blocks, plus one density and one flag per block.
    ///
    /// Reported separately from [`Self::allocated_bytes`] because this crate
    /// keeps the full cell buffer allocated for simplicity.
    pub fn live_state_bytes(&self) -> (r: usize)
        requires
            self.well_formed(),
            self.allocated_bytes_spec() <= usize::MAX,
        ensures
            r == self.live_state_bytes_spec(),
    {
        broadcast use vstd::layout::layout_of_primitives;

        let n = self.geom.blocks();
        proof {
            lemma_resolved_cells_bounded(*self, n as nat);
            lemma_blocks_tile_the_grid(self.geom);
        }
        let mut sum: usize = 0;
        let mut b: usize = 0;
        while b < n
            invariant
                self.well_formed(),
                n == self.geom.blocks_spec(),
                b <= n,
                sum == self.resolved_cells_in(b as nat),
                self.resolved_cells_in(n as nat) <= self.geom.cells_spec(),
                self.geom.cells_spec() <= usize::MAX,
            decreases n - b,
        {
            proof {
                lemma_block_in_range(self.geom, b as int);
                lemma_resolved_cells_monotone(*self, (b + 1) as nat, n as nat);
            }
            if self.resolved[b] {
                sum = sum + self.geom.block_cells(b);
            }
            b = b + 1;
        }
        let per_block = core::mem::size_of::<u64>() + core::mem::size_of::<bool>();
        assert(per_block == 9);
        sum + n * per_block
    }

    /// Bytes this implementation really holds.
    pub fn allocated_bytes(&self) -> (r: usize)
        requires
            self.allocated_bytes_spec() <= usize::MAX,
        ensures
            r == self.allocated_bytes_spec(),
    {
        broadcast use vstd::layout::layout_of_primitives;

        let density_bytes = core::mem::size_of::<u64>();
        let flag_bytes = core::mem::size_of::<bool>();
        assert(density_bytes == 8 && flag_bytes == 1);
        self.cells.len() + self.coarse.len() * density_bytes + self.resolved.len() * flag_bytes
    }

    /// The entire state reduced to one number.
    ///
    /// Every field is folded in, densities by their exact bit pattern, so two
    /// worlds agreeing here agree completely. Folding uses this crate's own
    /// generator rather than a standard-library hasher, which makes no promise
    /// of stability across versions or platforms.
    pub fn fingerprint(&self) -> (r: u64)
        ensures
            r == self.fingerprint_spec(),
    {
        let mut acc = Rng::derive(
            FINGERPRINT_SALT,
            self.geom.w as u64,
            self.geom.h as u64,
            self.geom.block as u64,
        );
        let mut h = acc.next_u64();
        let ghost start = h;
        let mut i: usize = 0;
        while i < self.cells.len()
            invariant
                i <= self.cells.len(),
                h == fold_seq(start, self.cells_u64(), 1, i as nat),
            decreases self.cells.len() - i,
        {
            let mut step = Rng::derive(h, self.cells[i] as u64, i as u64, 1);
            h = step.next_u64();
            i = i + 1;
        }
        let ghost after_cells = h;
        let mut i: usize = 0;
        while i < self.coarse.len()
            invariant
                i <= self.coarse.len(),
                h == fold_seq(after_cells, self.coarse@, 2, i as nat),
            decreases self.coarse.len() - i,
        {
            let mut step = Rng::derive(h, self.coarse[i], i as u64, 2);
            h = step.next_u64();
            i = i + 1;
        }
        let ghost after_coarse = h;
        let mut i: usize = 0;
        while i < self.resolved.len()
            invariant
                i <= self.resolved.len(),
                h == fold_seq(after_coarse, self.resolved_u64(), 3, i as nat),
            decreases self.resolved.len() - i,
        {
            let bit: u64 = if self.resolved[i] { 1 } else { 0 };
            let mut step = Rng::derive(h, bit, i as u64, 3);
            h = step.next_u64();
            i = i + 1;
        }
        acc = Rng::new(h);
        acc.next_u64()
    }
}

pub(crate) proof fn lemma_resolved_cells_monotone(w: World, m: nat, n: nat)
    requires
        w.well_formed(),
        m <= n <= w.geom.blocks_spec(),
    ensures
        0 <= w.resolved_cells_in(m) <= w.resolved_cells_in(n),
    decreases n,
{
    if n > 0 {
        lemma_block_in_range(w.geom, n - 1);
        if m < n {
            lemma_resolved_cells_monotone(w, m, (n - 1) as nat);
        } else {
            lemma_resolved_cells_monotone(w, (n - 1) as nat, (n - 1) as nat);
        }
    }
}

/// Resolved blocks never hold more cells than all blocks do.
pub(crate) proof fn lemma_resolved_cells_bounded(w: World, n: nat)
    requires
        w.well_formed(),
        n <= w.geom.blocks_spec(),
    ensures
        0 <= w.resolved_cells_in(n) <= cells_in_first_blocks(w.geom, n),
    decreases n,
{
    if n > 0 {
        lemma_block_in_range(w.geom, n - 1);
        lemma_resolved_cells_bounded(w, (n - 1) as nat);
    }
}

/// `s` and `t` have the same length and disagree at exactly one position.
pub open spec fn one_entry_differs<T>(s: Seq<T>, t: Seq<T>) -> bool {
    &&& s.len() == t.len()
    &&& exists|k: int|
        0 <= k < s.len() && s[k] != t[k] && (forall|j: int|
            0 <= j < s.len() && j != k ==> s[j] == t[j])
}

proof fn lemma_step_injective_in_hash(h1: u64, h2: u64, v: u64, i: int, tag: u64)
    requires
        fold_step(h1, v, i, tag) == fold_step(h2, v, i, tag),
    ensures
        h1 == h2,
{
    if derive_spec(h1, v, i as u64, tag) != derive_spec(h2, v, i as u64, tag) {
        crate::rng::lemma_distinct_states_draw_distinct_values(
            derive_spec(h1, v, i as u64, tag),
            derive_spec(h2, v, i as u64, tag),
        );
    }
    crate::rng::lemma_derive_injective_in_each_coordinate(h1, v, i as u64, tag, h2, v, i as u64, tag);
}

proof fn lemma_step_injective_in_value(h: u64, v1: u64, v2: u64, i: int, tag: u64)
    requires
        fold_step(h, v1, i, tag) == fold_step(h, v2, i, tag),
    ensures
        v1 == v2,
{
    if derive_spec(h, v1, i as u64, tag) != derive_spec(h, v2, i as u64, tag) {
        crate::rng::lemma_distinct_states_draw_distinct_values(
            derive_spec(h, v1, i as u64, tag),
            derive_spec(h, v2, i as u64, tag),
        );
    }
    crate::rng::lemma_derive_injective_in_each_coordinate(h, v1, i as u64, tag, h, v2, i as u64, tag);
}

/// Folding the same values from different hashes keeps them different.
proof fn lemma_fold_keeps_hashes_apart(h1: u64, h2: u64, s: Seq<u64>, tag: u64, n: nat)
    requires
        h1 != h2,
        n <= s.len(),
    ensures
        fold_seq(h1, s, tag, n) != fold_seq(h2, s, tag, n),
    decreases n,
{
    if n > 0 {
        lemma_fold_keeps_hashes_apart(h1, h2, s, tag, (n - 1) as nat);
        if fold_seq(h1, s, tag, n) == fold_seq(h2, s, tag, n) {
            lemma_step_injective_in_hash(
                fold_seq(h1, s, tag, (n - 1) as nat),
                fold_seq(h2, s, tag, (n - 1) as nat),
                s[n - 1],
                n - 1,
                tag,
            );
        }
    }
}

/// Folding sequences that agree on a prefix gives the same hash.
proof fn lemma_fold_agreeing_prefix(h: u64, s: Seq<u64>, t: Seq<u64>, tag: u64, n: nat)
    requires
        n <= s.len(),
        n <= t.len(),
        forall|j: int| 0 <= j < n ==> s[j] == t[j],
    ensures
        fold_seq(h, s, tag, n) == fold_seq(h, t, tag, n),
    decreases n,
{
    if n > 0 {
        lemma_fold_agreeing_prefix(h, s, t, tag, (n - 1) as nat);
    }
}

/// Folding two sequences that differ at exactly one position gives
/// different hashes.
proof fn lemma_fold_notices_one_change(h: u64, s: Seq<u64>, t: Seq<u64>, tag: u64, n: nat)
    requires
        n == s.len(),
        one_entry_differs(s, t),
    ensures
        fold_seq(h, s, tag, n) != fold_seq(h, t, tag, n),
{
    let k = choose|k: int|
        0 <= k < s.len() && s[k] != t[k] && (forall|j: int|
            0 <= j < s.len() && j != k ==> s[j] == t[j]);
    lemma_fold_differs_from(h, s, t, tag, k, n);
}

proof fn lemma_fold_differs_from(h: u64, s: Seq<u64>, t: Seq<u64>, tag: u64, k: int, n: nat)
    requires
        n <= s.len(),
        s.len() == t.len(),
        0 <= k < n,
        s[k] != t[k],
        forall|j: int| 0 <= j < s.len() && j != k ==> s[j] == t[j],
    ensures
        fold_seq(h, s, tag, n) != fold_seq(h, t, tag, n),
    decreases n,
{
    if k == n - 1 {
        lemma_fold_agreeing_prefix(h, s, t, tag, (n - 1) as nat);
        if fold_seq(h, s, tag, n) == fold_seq(h, t, tag, n) {
            lemma_step_injective_in_value(fold_seq(h, s, tag, (n - 1) as nat), s[k], t[k], k, tag);
        }
    } else {
        lemma_fold_differs_from(h, s, t, tag, k, (n - 1) as nat);
        if fold_seq(h, s, tag, n) == fold_seq(h, t, tag, n) {
            lemma_step_injective_in_hash(
                fold_seq(h, s, tag, (n - 1) as nat),
                fold_seq(h, t, tag, (n - 1) as nat),
                s[n - 1],
                n - 1,
                tag,
            );
        }
    }
}

/// Law: the fingerprint notices any single change to a world's state. Two
/// worlds of the same geometry whose cells, densities or fidelity flags
/// differ in exactly one entry, all else equal, have different fingerprints.
pub proof fn lemma_fingerprint_notices_one_change(a: World, b: World)
    requires
        a.well_formed(),
        b.well_formed(),
        a.geom == b.geom,
        (one_entry_differs(a.cells@, b.cells@) && a.coarse@ == b.coarse@ && a.resolved@
            == b.resolved@) || (a.cells@ == b.cells@ && one_entry_differs(a.coarse@, b.coarse@)
            && a.resolved@ == b.resolved@) || (a.cells@ == b.cells@ && a.coarse@ == b.coarse@
            && one_entry_differs(a.resolved@, b.resolved@)),
    ensures
        a.fingerprint_spec() != b.fingerprint_spec(),
{
    let start = draw(
        derive_spec(FINGERPRINT_SALT, a.geom.w as u64, a.geom.h as u64, a.geom.block as u64),
    );
    let nc = a.cells.len() as nat;
    let nd = a.coarse.len() as nat;
    let nr = a.resolved.len() as nat;
    let ac = fold_seq(start, a.cells_u64(), 1, nc);
    let bc = fold_seq(start, b.cells_u64(), 1, nc);
    let ad = fold_seq(ac, a.coarse@, 2, nd);
    let bd = fold_seq(bc, b.coarse@, 2, nd);
    let ar = fold_seq(ad, a.resolved_u64(), 3, nr);
    let br = fold_seq(bd, b.resolved_u64(), 3, nr);
    if one_entry_differs(a.cells@, b.cells@) {
        let k = choose|k: int|
            0 <= k < a.cells@.len() && a.cells@[k] != b.cells@[k] && (forall|j: int|
                0 <= j < a.cells@.len() && j != k ==> a.cells@[j] == b.cells@[j]);
        assert(a.cells_u64()[k] != b.cells_u64()[k]);
        assert(forall|j: int|
            0 <= j < a.cells@.len() && j != k ==> a.cells_u64()[j] == b.cells_u64()[j]);
        assert(one_entry_differs(a.cells_u64(), b.cells_u64()));
        lemma_fold_notices_one_change(start, a.cells_u64(), b.cells_u64(), 1, nc);
        lemma_fold_keeps_hashes_apart(ac, bc, a.coarse@, 2, nd);
        assert(a.resolved_u64() == b.resolved_u64());
        lemma_fold_keeps_hashes_apart(ad, bd, a.resolved_u64(), 3, nr);
    } else if one_entry_differs(a.coarse@, b.coarse@) {
        assert(a.cells_u64() == b.cells_u64());
        lemma_fold_notices_one_change(ac, a.coarse@, b.coarse@, 2, nd);
        assert(a.resolved_u64() == b.resolved_u64());
        lemma_fold_keeps_hashes_apart(ad, bd, a.resolved_u64(), 3, nr);
    } else {
        assert(a.cells_u64() == b.cells_u64());
        let k = choose|k: int|
            0 <= k < a.resolved@.len() && a.resolved@[k] != b.resolved@[k] && (forall|j: int|
                0 <= j < a.resolved@.len() && j != k ==> a.resolved@[j] == b.resolved@[j]);
        assert(a.resolved_u64()[k] != b.resolved_u64()[k]);
        assert(forall|j: int|
            0 <= j < a.resolved@.len() && j != k ==> a.resolved_u64()[j] == b.resolved_u64()[j]);
        assert(one_entry_differs(a.resolved_u64(), b.resolved_u64()));
        lemma_fold_notices_one_change(ad, a.resolved_u64(), b.resolved_u64(), 3, nr);
    }
    if draw(ar) == draw(br) && ar != br {
        crate::rng::lemma_distinct_states_draw_distinct_values(ar, br);
    }
}

/// Law: a resource-honest implementation never holds more than this one
/// allocates.
pub proof fn lemma_live_bytes_within_allocated(w: World)
    requires
        w.well_formed(),
    ensures
        w.live_state_bytes_spec() <= w.allocated_bytes_spec(),
{
    let n = w.geom.blocks_spec();
    assert(n >= 0) by (nonlinear_arith)
        requires
            n == w.geom.bw * w.geom.bh,
    ;
    lemma_resolved_cells_bounded(w, n as nat);
    lemma_blocks_tile_the_grid(w.geom);
    assert(w.resolved_cells_in(n as nat) <= w.cells.len());
    assert(w.coarse.len() == n && w.resolved.len() == n);
    assert(n * (8 + 1) == n * 8 + n) by (nonlinear_arith);
    assert(w.coarse.len() * 8 == n * 8);
}

/// Law: collapsing blocks never raises what a resource-honest implementation
/// holds, and collapsing a resolved block strictly lowers it. `after` is
/// `before` with some resolved blocks collapsed and nothing newly resolved.
pub proof fn lemma_collapse_lowers_live_bytes(before: World, after: World)
    requires
        before.well_formed(),
        after.well_formed(),
        before.geom == after.geom,
        forall|b: int| 0 <= b < after.resolved.len() && #[trigger] after.resolved[b] ==> before.resolved[b],
    ensures
        after.live_state_bytes_spec() <= before.live_state_bytes_spec(),
        (exists|b: int| 0 <= b < after.resolved.len() && before.resolved[b] && !after.resolved[b])
            ==> after.live_state_bytes_spec() < before.live_state_bytes_spec(),
{
    let n = before.geom.blocks_spec() as nat;
    lemma_resolved_cells_compare(before, after, n);
    if exists|b: int| 0 <= b < after.resolved.len() && before.resolved[b] && !after.resolved[b] {
        let b = choose|b: int| 0 <= b < after.resolved.len() && before.resolved[b] && !after.resolved[b];
        lemma_resolved_cells_strict(before, after, b, n);
    }
}

proof fn lemma_resolved_cells_compare(before: World, after: World, n: nat)
    requires
        before.well_formed(),
        after.well_formed(),
        before.geom == after.geom,
        n <= before.geom.blocks_spec(),
        forall|b: int| 0 <= b < after.resolved.len() && #[trigger] after.resolved[b] ==> before.resolved[b],
    ensures
        after.resolved_cells_in(n) <= before.resolved_cells_in(n),
    decreases n,
{
    if n > 0 {
        lemma_block_in_range(before.geom, n - 1);
        lemma_resolved_cells_compare(before, after, (n - 1) as nat);
    }
}

proof fn lemma_resolved_cells_strict(before: World, after: World, k: int, n: nat)
    requires
        before.well_formed(),
        after.well_formed(),
        before.geom == after.geom,
        n <= before.geom.blocks_spec(),
        0 <= k < n,
        before.resolved[k],
        !after.resolved[k],
        forall|b: int| 0 <= b < after.resolved.len() && #[trigger] after.resolved[b] ==> before.resolved[b],
    ensures
        after.resolved_cells_in(n) < before.resolved_cells_in(n),
    decreases n,
{
    lemma_block_in_range(before.geom, n - 1);
    if k == n - 1 {
        lemma_resolved_cells_compare(before, after, (n - 1) as nat);
    } else {
        lemma_resolved_cells_strict(before, after, k, (n - 1) as nat);
    }
}

/// A well-formed geometry has no more blocks than cells.
pub proof fn lemma_blocks_fit(g: Geometry)
    requires
        g.well_formed(),
        g.fits_usize(),
    ensures
        g.bw * g.bh <= usize::MAX,
{
    if g.bw * g.bh > 0 {
        lemma_block_in_range(g, 0);
    }
    lemma_ceil_le(g.w as int, g.block as int);
    lemma_ceil_le(g.h as int, g.block as int);
    assert(g.bw * g.bh <= g.w * g.h) by (nonlinear_arith)
        requires
            0 <= g.bw <= g.w,
            0 <= g.bh <= g.h,
    ;
}

pub proof fn lemma_ceil_le(a: int, d: int)
    requires
        a >= 0,
        d >= 1,
    ensures
        0 <= ceil_div(a, d) <= a,
{
    if a == 0 {
        assert(ceil_div(a, d) == (d - 1) / d);
        vstd::arithmetic::div_mod::lemma_basic_div(d - 1, d);
    } else {
        vstd::arithmetic::div_mod::lemma_div_is_ordered_by_denominator(a + d - 1, 1, d);
        vstd::arithmetic::div_mod::lemma_div_pos_is_pos(a + d - 1, d);
        if d > 1 {
            assert((a + d - 1) / d <= a) by {
                vstd::arithmetic::div_mod::lemma_fundamental_div_mod(a + d - 1, d);
                vstd::arithmetic::div_mod::lemma_mod_bound(a + d - 1, d);
                let q = (a + d - 1) / d;
                assert(q <= a) by (nonlinear_arith)
                    requires
                        a + d - 1 == d * q + (a + d - 1) % d,
                        0 <= (a + d - 1) % d,
                        d > 1,
                        a >= 1,
                ;
            }
        }
    }
}

/// Euclidean remainder of a signed coordinate by a positive extent.
fn wrap(v: isize, n: usize) -> (r: usize)
    requires
        0 < n <= isize::MAX,
    ensures
        r == (v as int) % (n as int),
        r < n,
{
    let m = n as isize;
    match v.checked_rem_euclid(m) {
        Some(r) => r as usize,
        None => {
            proof {
                assert(false);
            }
            0
        },
    }
}

fn div_ceil(a: usize, d: usize) -> (r: usize)
    requires
        d >= 1,
    ensures
        r == ceil_div(a as int, d as int),
{
    proof {
        lemma_ceil_div(a as int, d as int);
    }
    if a % d == 0 {
        a / d
    } else {
        proof {
            assert(d != 1) by {
                if d == 1 {
                    vstd::arithmetic::div_mod::lemma_small_mod(0, 1);
                    vstd::arithmetic::div_mod::lemma_mod_multiples_basic(a as int, 1);
                }
            }
            assert(a != 0) by {
                if a == 0 {
                    vstd::arithmetic::div_mod::lemma_small_mod(0, d as nat);
                }
            }
            vstd::arithmetic::div_mod::lemma_div_decreases(a as int, d as int);
        }
        a / d + 1
    }
}

proof fn lemma_ceil_div(a: int, d: int)
    requires
        a >= 0,
        d >= 1,
    ensures
        ceil_div(a, d) == a / d + (if a % d == 0 { 0int } else { 1int }),
{
    let q = a / d;
    let r = a % d;
    vstd::arithmetic::div_mod::lemma_fundamental_div_mod(a, d);
    vstd::arithmetic::div_mod::lemma_mod_bound(a, d);
    vstd::arithmetic::mul::lemma_mul_is_commutative(d, q);
    if r == 0 {
        vstd::arithmetic::div_mod::lemma_fundamental_div_mod_converse(a + d - 1, d, q, d - 1);
    } else {
        assert(a + d - 1 == (q + 1) * d + (r - 1)) by (nonlinear_arith)
            requires
                a == q * d + r,
        ;
        vstd::arithmetic::div_mod::lemma_fundamental_div_mod_converse(a + d - 1, d, q + 1, r - 1);
    }
}

// ---------------------------------------------------------------------------
// Counting a block's live cells.
// ---------------------------------------------------------------------------

/// Sum of the cells of row `y` in columns `x0..x`, on a grid `w` wide.
pub open spec fn row_sum(cells: Seq<u8>, w: int, y: int, x0: int, x: int) -> int
    decreases x - x0,
{
    if x <= x0 {
        0
    } else {
        row_sum(cells, w, y, x0, x - 1) + cells[y * w + x - 1]
    }
}

/// Sum of the cells in columns `x0..x1` of rows `y0..y`.
pub open spec fn rect_sum(cells: Seq<u8>, w: int, x0: int, x1: int, y0: int, y: int) -> int
    decreases y - y0,
{
    if y <= y0 {
        0
    } else {
        rect_sum(cells, w, x0, x1, y0, y - 1) + row_sum(cells, w, y - 1, x0, x1)
    }
}

impl World {
    /// Every cell holds 0 or 1, as the cells of a world do.
    pub open spec fn binary_cells(&self) -> bool {
        forall|i: int| 0 <= i < self.cells@.len() ==> #[trigger] self.cells@[i] <= 1
    }

    /// Live cells of block `b`: the sum of the cells inside its bounds.
    pub open spec fn block_live_spec(&self, b: int) -> int {
        let (x0, y0, x1, y1) = self.geom.bounds_spec(b);
        rect_sum(self.cells@, self.geom.w as int, x0, x1, y0, y1)
    }

    /// How many of a block's cells are live: the sum of its cells' values.
    /// Divided by the block's cell count this is its density, which is what a
    /// collapsed block keeps.
    pub fn live_in_block(&self, b: usize) -> (r: usize)
        requires
            self.well_formed(),
            b < self.geom.blocks_spec(),
            255 * self.geom.block_cells_spec(b as int) <= usize::MAX,
        ensures
            r == self.block_live_spec(b as int),
            self.binary_cells() ==> r <= self.geom.block_cells_spec(b as int),
    {
        proof {
            lemma_block_in_range(self.geom, b as int);
        }
        let (x0, y0, x1, y1) = self.geom.block_bounds(b);
        let ghost w = self.geom.w as int;
        let ghost dx = (x1 - x0) as int;
        let ghost cap = (y1 - y0) * dx;
        let mut sum: usize = 0;
        let mut y = y0;
        proof {
            assert(self.geom.block_cells_spec(b as int) == dx * (y1 - y0));
            vstd::arithmetic::mul::lemma_mul_is_commutative(dx, (y1 - y0) as int);
        }
        while y < y1
            invariant
                self.well_formed(),
                w == self.geom.w,
                0 <= x0 < x1 <= self.geom.w,
                0 <= y0 <= y <= y1 <= self.geom.h,
                dx == x1 - x0,
                cap == (y1 - y0) * dx,
                255 * cap <= usize::MAX,
                sum == rect_sum(self.cells@, w, x0 as int, x1 as int, y0 as int, y as int),
                sum <= 255 * ((y - y0) * dx),
                self.binary_cells() ==> sum <= (y - y0) * dx,
            decreases y1 - y,
        {
            let mut x = x0;
            let ghost above = sum as int;
            proof {
                lemma_mul_le((y - y0 + 1) as int, (y1 - y0) as int, dx);
                assert((y - y0 + 1) * dx == (y - y0) * dx + dx) by (nonlinear_arith);
            }
            while x < x1
                invariant
                    self.well_formed(),
                    w == self.geom.w,
                    0 <= x0 <= x <= x1 <= self.geom.w,
                    y0 <= y < y1 <= self.geom.h,
                    dx == x1 - x0,
                    (y - y0 + 1) * dx <= cap,
                    255 * cap <= usize::MAX,
                    (y - y0 + 1) * dx == (y - y0) * dx + dx,
                    above == rect_sum(self.cells@, w, x0 as int, x1 as int, y0 as int, y as int),
                    above <= 255 * ((y - y0) * dx),
                    self.binary_cells() ==> above <= (y - y0) * dx,
                    sum == above + row_sum(self.cells@, w, y as int, x0 as int, x as int),
                    sum <= above + 255 * (x - x0),
                    self.binary_cells() ==> sum <= above + (x - x0),
                decreases x1 - x,
            {
                proof {
                    assert(y * self.geom.w + x < self.geom.w * self.geom.h) by (nonlinear_arith)
                        requires
                            x < self.geom.w,
                            y < self.geom.h,
                    ;
                    assert(0 <= y * self.geom.w) by (nonlinear_arith)
                        requires
                            0 <= y,
                            0 <= self.geom.w,
                    ;
                }
                let i = self.geom.idx(x, y);
                let c = self.cells[i];
                sum = sum + c as usize;
                x = x + 1;
            }
            y = y + 1;
        }
        sum
    }
}

// ---------------------------------------------------------------------------
// Seeding at base resolution.
// ---------------------------------------------------------------------------

/// The base cell a fine cell `(x, y)` lies in, as an index into a
/// base-resolution pattern.
pub open spec fn base_index(g: Geometry, x: int, y: int) -> int {
    (y / g.scale as int) * (g.w as int / g.scale as int) + x / g.scale as int
}

/// Spread a pattern drawn at *base* resolution over the fine grid: every fine
/// cell takes the value of the base cell it lies in.
///
/// This is why a coarse universe and a subdivided one begin from the same
/// macro configuration: each base cell becomes a `scale x scale` square of
/// identical fine cells, so the comparison between resolutions is between two
/// renderings of one initial condition, not between two initial conditions.
pub fn upsample(geom: &Geometry, base: &Vec<u8>) -> (r: Vec<u8>)
    requires
        geom.scale >= 1,
        geom.w * geom.h <= usize::MAX,
        geom.w % geom.scale == 0,
        geom.h % geom.scale == 0,
        base@.len() == (geom.w / geom.scale) * (geom.h / geom.scale),
    ensures
        r@.len() == geom.cells_spec(),
        forall|x: int, y: int|
            0 <= x < geom.w && 0 <= y < geom.h ==> #[trigger] r@[geom.idx_spec(x, y)]
                == base@[base_index(*geom, x, y)],
{
    let s = geom.scale;
    let bw = geom.w / s;
    let ghost bh = geom.h as int / s as int;
    let base_len = base.len();
    let mut r: Vec<u8> = Vec::new();
    let mut y: usize = 0;
    while y < geom.h
        invariant
            geom.scale == s,
            s >= 1,
            bw == geom.w as int / s as int,
            bh == geom.h as int / s as int,
            geom.w * geom.h <= usize::MAX,
            geom.w % geom.scale == 0,
            geom.h % geom.scale == 0,
            base@.len() == bw * bh,
            base_len == base@.len(),
            y <= geom.h,
            r@.len() == y * geom.w,
            forall|xx: int, yy: int|
                0 <= xx < geom.w && 0 <= yy < y ==> #[trigger] r@[geom.idx_spec(xx, yy)]
                    == base@[base_index(*geom, xx, yy)],
        decreases geom.h - y,
    {
        let by = y / s;
        proof {
            vstd::arithmetic::div_mod::lemma_fundamental_div_mod(geom.h as int, s as int);
            vstd::arithmetic::div_mod::lemma_fundamental_div_mod(y as int, s as int);
            vstd::arithmetic::div_mod::lemma_mod_bound(y as int, s as int);
            assert(by < bh) by (nonlinear_arith)
                requires
                    y < geom.h,
                    geom.h == s * bh,
                    y == s * by + (y as int) % (s as int),
                    0 <= (y as int) % (s as int) < s,
                    s >= 1,
            ;
            lemma_mul_le((y + 1) as int, geom.h as int, geom.w as int);
            vstd::arithmetic::mul::lemma_mul_is_commutative(geom.h as int, geom.w as int);
        }
        let mut x: usize = 0;
        while x < geom.w
            invariant
                geom.scale == s,
                s >= 1,
                bw == geom.w as int / s as int,
                bh == geom.h as int / s as int,
                geom.w * geom.h <= usize::MAX,
                geom.w % geom.scale == 0,
                base@.len() == bw * bh,
                base_len == base@.len(),
                y < geom.h,
                by == y as int / s as int,
                by < bh,
                (y + 1) * geom.w <= geom.w * geom.h,
                x <= geom.w,
                r@.len() == y * geom.w + x,
                forall|xx: int, yy: int|
                    0 <= xx < geom.w && 0 <= yy < y ==> #[trigger] r@[geom.idx_spec(xx, yy)]
                        == base@[base_index(*geom, xx, yy)],
                forall|xx: int| 0 <= xx < x ==> #[trigger] r@[geom.idx_spec(xx, y as int)]
                    == base@[base_index(*geom, xx, y as int)],
            decreases geom.w - x,
        {
            let bx = x / s;
            proof {
                vstd::arithmetic::div_mod::lemma_fundamental_div_mod(geom.w as int, s as int);
                vstd::arithmetic::div_mod::lemma_fundamental_div_mod(x as int, s as int);
                vstd::arithmetic::div_mod::lemma_mod_bound(x as int, s as int);
                assert(bx < bw) by (nonlinear_arith)
                    requires
                        x < geom.w,
                        geom.w == s * bw,
                        x == s * bx + (x as int) % (s as int),
                        0 <= (x as int) % (s as int) < s,
                        s >= 1,
                ;
                assert(by * bw + bx < bw * bh) by (nonlinear_arith)
                    requires
                        0 <= by < bh,
                        0 <= bx < bw,
                ;
                assert(y * geom.w + x < (y + 1) * geom.w) by (nonlinear_arith)
                    requires
                        x < geom.w,
                ;
            }
            let v = base[by * bw + bx];
            let ghost before = r@;
            r.push(v);
            proof {
                assert(r@[geom.idx_spec(x as int, y as int)] == v);
                assert forall|xx: int, yy: int|
                    0 <= xx < geom.w && 0 <= yy < y implies #[trigger] r@[geom.idx_spec(xx, yy)]
                        == base@[base_index(*geom, xx, yy)] by {
                    assert(yy * geom.w + xx < y * geom.w) by (nonlinear_arith)
                        requires
                            0 <= xx < geom.w,
                            0 <= yy < y,
                    ;
                    assert(0 <= yy * geom.w + xx) by (nonlinear_arith)
                        requires
                            0 <= xx,
                            0 <= yy,
                            0 <= geom.w,
                    ;
                    assert(r@[geom.idx_spec(xx, yy)] == before[geom.idx_spec(xx, yy)]);
                }
                assert forall|xx: int| 0 <= xx < x + 1 implies #[trigger] r@[geom.idx_spec(
                    xx,
                    y as int,
                )] == base@[base_index(*geom, xx, y as int)] by {
                    if xx < x {
                        assert(0 <= y * geom.w) by (nonlinear_arith)
                            requires
                                0 <= y,
                                0 <= geom.w,
                        ;
                        assert(r@[geom.idx_spec(xx, y as int)] == before[geom.idx_spec(
                            xx,
                            y as int,
                        )]);
                    }
                }
            }
            x = x + 1;
        }
        proof {
            assert(r@.len() == (y + 1) * geom.w) by (nonlinear_arith)
                requires
                    r@.len() == y * geom.w + geom.w,
            ;
        }
        y = y + 1;
    }
    proof {
        assert(r@.len() == geom.h * geom.w);
        vstd::arithmetic::mul::lemma_mul_is_commutative(geom.h as int, geom.w as int);
    }
    r
}

/// Law: seeding at base resolution. The `scale x scale` fine cells that make
/// up one base cell all carry that base cell's value, whatever the scale.
pub proof fn lemma_upsampled_squares_are_uniform(
    geom: Geometry,
    base: Seq<u8>,
    fine: Seq<u8>,
    x: int,
    y: int,
    dx: int,
    dy: int,
)
    requires
        geom.scale >= 1,
        0 <= x < geom.w,
        0 <= y < geom.h,
        x % (geom.scale as int) == 0,
        y % (geom.scale as int) == 0,
        0 <= dx < geom.scale,
        0 <= dy < geom.scale,
        x + dx < geom.w,
        y + dy < geom.h,
        forall|a: int, b: int|
            0 <= a < geom.w && 0 <= b < geom.h ==> #[trigger] fine[geom.idx_spec(a, b)]
                == base[base_index(geom, a, b)],
    ensures
        fine[geom.idx_spec(x + dx, y + dy)] == fine[geom.idx_spec(x, y)],
{
    let s = geom.scale as int;
    vstd::arithmetic::div_mod::lemma_fundamental_div_mod(x, s);
    vstd::arithmetic::div_mod::lemma_fundamental_div_mod(y, s);
    vstd::arithmetic::mul::lemma_mul_is_commutative(s, x / s);
    vstd::arithmetic::mul::lemma_mul_is_commutative(s, y / s);
    vstd::arithmetic::div_mod::lemma_fundamental_div_mod_converse(x + dx, s, x / s, dx);
    vstd::arithmetic::div_mod::lemma_fundamental_div_mod_converse(y + dy, s, y / s, dy);
    assert(base_index(geom, x + dx, y + dy) == base_index(geom, x, y));
    assert(fine[geom.idx_spec(x + dx, y + dy)] == base[base_index(geom, x + dx, y + dy)]);
    assert(fine[geom.idx_spec(x, y)] == base[base_index(geom, x, y)]);
}

proof fn lemma_mul_le(a: int, b: int, c: int)
    by (nonlinear_arith)
    requires
        0 <= a <= b,
        0 <= c,
    ensures
        a * c <= b * c,
{
}

} // verus!
