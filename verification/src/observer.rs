//! Theory 1: lazy rendering. The probe, and which regions it forces to exist
//! in detail.
//!
//! A **probe** is whatever compels full-resolution computation. In v0.1 it is
//! a fixed window: a rectangle of base cells, unmoving for the whole run, so
//! that the cost difference is attributable to the optimization rather than to
//! the observer wandering about.
//!
//! This file decides which blocks a probe touches. The world is a torus, so a
//! probe may straddle the seam; and the probe is given in *base* cells, so the
//! same probe covers the same physical region whether or not space has been
//! subdivided. Both facts are proved below.

use vstd::prelude::*;
use crate::space::Geometry;

verus! {

/// A fixed rectangular window, in *base* cells.
#[derive(Clone, Copy, Debug, PartialEq, Eq, Structural)]
pub struct Probe {
    pub x: usize,
    pub y: usize,
    pub width: usize,
    pub height: usize,
}

/// Do the arcs `[a0, a0 + alen)` and `[b0, b0 + blen)` share a position on a
/// circle of circumference `n`?
pub open spec fn arcs_meet(a0: int, alen: int, b0: int, blen: int, n: int) -> bool {
    exists|i: int, j: int|
        0 <= i < alen && 0 <= j < blen && #[trigger] on_circle(a0, i, n) == #[trigger] on_circle(
            b0,
            j,
            n,
        )
}

/// The position `k` steps past `start` on a circle of circumference `n`.
pub open spec fn on_circle(start: int, k: int, n: int) -> int {
    (start + k) % n
}

/// The arcs meet on a circle that exists.
pub open spec fn overlaps_spec(a0: int, alen: int, b0: int, blen: int, n: int) -> bool {
    n > 0 && arcs_meet(a0, alen, b0, blen, n)
}

impl Probe {
    /// Whether block `b` of `geom` lies, at least in part, under the probe.
    pub open spec fn observes(&self, geom: Geometry, b: int) -> bool {
        let s = geom.scale as int;
        let (x0, y0, x1, y1) = geom.bounds_spec(b);
        &&& overlaps_spec(self.x * s, self.width * s, x0, x1 - x0, geom.w as int)
        &&& overlaps_spec(self.y * s, self.height * s, y0, y1 - y0, geom.h as int)
    }

    /// Whether the probe's fine-grid coordinates, and the seam arithmetic,
    /// fit in `usize` for this geometry.
    pub open spec fn fits(&self, geom: Geometry) -> bool {
        &&& self.x * geom.scale <= usize::MAX
        &&& self.y * geom.scale <= usize::MAX
        &&& self.width * geom.scale <= usize::MAX
        &&& self.height * geom.scale <= usize::MAX
        &&& geom.w + geom.w <= usize::MAX
        &&& geom.h + geom.h <= usize::MAX
    }

    /// Which blocks this probe touches, in fine-grid terms.
    pub fn observed_blocks(&self, geom: &Geometry) -> (r: Vec<bool>)
        requires
            geom.well_formed(),
            geom.fits_usize(),
            self.fits(*geom),
        ensures
            r.len() == geom.blocks_spec(),
            forall|b: int| 0 <= b < r.len() ==> r[b] == self.observes(*geom, b),
    {
        let s = geom.scale;
        let px0 = self.x * s;
        let py0 = self.y * s;
        let pw = self.width * s;
        let ph = self.height * s;
        proof {
            crate::space::lemma_blocks_tile_the_grid(*geom);
            crate::space::lemma_blocks_fit(*geom);
        }
        let n = geom.blocks();
        let mut out: Vec<bool> = Vec::new();
        let mut b: usize = 0;
        while b < n
            invariant
                geom.well_formed(),
                geom.fits_usize(),
                self.fits(*geom),
                n == geom.blocks_spec(),
                s == geom.scale,
                px0 == self.x * s,
                py0 == self.y * s,
                pw == self.width * s,
                ph == self.height * s,
                b <= n,
                out.len() == b,
                forall|k: int| 0 <= k < b ==> out[k] == self.observes(*geom, k),
            decreases n - b,
        {
            proof {
                crate::space::lemma_block_in_range(*geom, b as int);
            }
            let (x0, y0, x1, y1) = geom.block_bounds(b);
            let seen = overlaps_wrapped(px0, pw, x0, x1 - x0, geom.w) && overlaps_wrapped(
                py0,
                ph,
                y0,
                y1 - y0,
                geom.h,
            );
            out.push(seen);
            b = b + 1;
        }
        out
    }
}

/// Where the second arc starts once the circle is turned so that the first
/// starts at zero.
pub open spec fn turned_start(a0: int, b0: int, n: int) -> int {
    (b0 + n - a0 % n) % n
}

/// The test [`overlaps_wrapped`] performs.
pub open spec fn overlap_test(a0: int, alen: int, b0: int, blen: int, n: int) -> bool {
    if alen == 0 || blen == 0 || n == 0 {
        false
    } else if alen >= n {
        true
    } else {
        turned_start(a0, b0, n) < alen || turned_start(a0, b0, n) + blen > n
    }
}

/// Do two intervals overlap on a circle of circumference `n`?
///
/// The world is a torus, so a probe may straddle the seam.
fn overlaps_wrapped(a0: usize, alen: usize, b0: usize, blen: usize, n: usize) -> (r: bool)
    requires
        b0 + n <= usize::MAX,
        n + blen <= usize::MAX,
    ensures
        r == overlap_test(a0 as int, alen as int, b0 as int, blen as int, n as int),
        r == overlaps_spec(a0 as int, alen as int, b0 as int, blen as int, n as int),
{
    proof {
        if n > 0 {
            lemma_overlap_test_is_arcs_meet(a0 as int, alen as int, b0 as int, blen as int, n as int);
        }
    }
    if alen == 0 || blen == 0 || n == 0 {
        return false;
    }
    if alen >= n {
        return true;
    }
    // Shift both intervals so `a` starts at 0, then test on the line.
    let b_start = (b0 + n - a0 % n) % n;
    b_start < alen || b_start + blen > n
}

/// `d` is a multiple of `n` smaller than `n` in size, so it is zero.
proof fn lemma_small_multiple_is_zero(d: int, n: int)
    requires
        n > 0,
        -n < d < n,
        d % n == 0,
    ensures
        d == 0,
{
    vstd::arithmetic::div_mod::lemma_fundamental_div_mod(d, n);
    let q = d / n;
    assert(d == n * q);
    if q == 0 {
        assert(n * q == 0) by (nonlinear_arith)
            requires
                q == 0,
        ;
    } else if q >= 1 {
        assert(n * q >= n) by (nonlinear_arith)
            requires
                q >= 1,
                n > 0,
        ;
    } else if q <= -1 {
        assert(n * q <= -n) by (nonlinear_arith)
            requires
                q <= -1,
                n > 0,
        ;
    }
}

/// The seam-shifting test means exactly what it says: the two arcs share a
/// position on the circle.
pub proof fn lemma_overlap_test_is_arcs_meet(a0: int, alen: int, b0: int, blen: int, n: int)
    requires
        0 <= a0,
        0 <= alen,
        0 <= b0,
        0 <= blen,
        0 < n,
    ensures
        overlap_test(a0, alen, b0, blen, n) == arcs_meet(a0, alen, b0, blen, n),
{
    let q = a0 / n;
    let r = a0 % n;
    vstd::arithmetic::div_mod::lemma_fundamental_div_mod(a0, n);
    vstd::arithmetic::div_mod::lemma_mod_bound(a0, n);
    let bs = turned_start(a0, b0, n);
    let t = (b0 + n - r) / n;
    vstd::arithmetic::div_mod::lemma_fundamental_div_mod(b0 + n - r, n);
    vstd::arithmetic::div_mod::lemma_mod_bound(b0 + n - r, n);
    assert(b0 + n - r == n * t + bs);
    if alen == 0 || blen == 0 {
    } else if alen >= n {
        // The first arc covers the whole circle; it meets the second's start.
        let i = b0 % n - r + (if b0 % n >= r { 0int } else { n });
        vstd::arithmetic::div_mod::lemma_fundamental_div_mod(b0, n);
        vstd::arithmetic::div_mod::lemma_mod_bound(b0, n);
        let k = q - (b0 / n) + (if b0 % n >= r { 0int } else { 1int });
        assert(a0 + i == n * k + b0) by (nonlinear_arith)
            requires
                a0 == n * q + r,
                b0 == n * (b0 / n) + b0 % n,
                i == b0 % n - r + (if b0 % n >= r { 0int } else { n }),
                k == q - (b0 / n) + (if b0 % n >= r { 0int } else { 1int }),
        ;
        vstd::arithmetic::div_mod::lemma_mod_multiples_vanish(k, b0, n);
        assert((b0 + 0) % n == b0 % n);
        assert(0 <= i < alen);
        assert(on_circle(a0, i, n) == on_circle(b0, 0, n));
        assert(arcs_meet(a0, alen, b0, blen, n));
    } else if bs < alen {
        // The second arc starts inside the first.
        assert(a0 + bs == n * (q + 1 - t) + b0) by (nonlinear_arith)
            requires
                a0 == n * q + r,
                b0 + n - r == n * t + bs,
        ;
        vstd::arithmetic::div_mod::lemma_mod_multiples_vanish(q + 1 - t, b0, n);
        assert((a0 + bs) % n == (b0 + 0) % n);
        assert(on_circle(a0, bs, n) == on_circle(b0, 0, n));
        assert(arcs_meet(a0, alen, b0, blen, n));
    } else if bs + blen > n {
        // The second arc runs across the first's start.
        let j = n - bs;
        assert(b0 + j == n * t + r) by (nonlinear_arith)
            requires
                b0 + n - r == n * t + bs,
                j == n - bs,
        ;
        vstd::arithmetic::div_mod::lemma_mod_multiples_vanish(t, r, n);
        vstd::arithmetic::div_mod::lemma_small_mod(r as nat, n as nat);
        assert((a0 + 0) % n == (b0 + j) % n);
        assert(on_circle(a0, 0, n) == on_circle(b0, j, n));
        assert(arcs_meet(a0, alen, b0, blen, n));
    } else {
        // The second arc lies wholly in the gap after the first.
        if arcs_meet(a0, alen, b0, blen, n) {
            let (i, j) = choose|i: int, j: int|
                0 <= i < alen && 0 <= j < blen && on_circle(a0, i, n) == on_circle(b0, j, n);
            assert(a0 + i == n * q + (r + i));
            assert(b0 + j == n * (t - 1) + (r + bs + j)) by (nonlinear_arith)
                requires
                    b0 + n - r == n * t + bs,
            ;
            vstd::arithmetic::div_mod::lemma_mod_multiples_vanish(q, r + i, n);
            vstd::arithmetic::div_mod::lemma_mod_multiples_vanish(t - 1, r + bs + j, n);
            vstd::arithmetic::div_mod::lemma_mod_equivalence(r + i, r + bs + j, n);
            lemma_small_multiple_is_zero((r + i) - (r + bs + j), n);
        }
    }
}

/// Scaling a remainder: `(x * s) % (n * s) == (x % n) * s`.
proof fn lemma_mod_scales(x: int, n: int, s: int)
    requires
        n > 0,
        s > 0,
    ensures
        (x * s) % (n * s) == (x % n) * s,
{
    let q = x / n;
    let r = x % n;
    vstd::arithmetic::div_mod::lemma_fundamental_div_mod(x, n);
    vstd::arithmetic::div_mod::lemma_mod_bound(x, n);
    assert(x * s == q * (n * s) + r * s && 0 <= r * s < n * s) by (nonlinear_arith)
        requires
            x == n * q + r,
            0 <= r < n,
            s > 0,
    ;
    assert(n * s > 0) by (nonlinear_arith)
        requires
            n > 0,
            s > 0,
    ;
    vstd::arithmetic::div_mod::lemma_fundamental_div_mod_converse(x * s, n * s, q, r * s);
}

/// Scaling every length on the circle by `s` does not change whether two
/// arcs meet.
proof fn lemma_overlap_test_scales(a0: int, alen: int, b0: int, blen: int, n: int, s: int)
    requires
        0 <= a0,
        0 <= alen,
        0 <= b0,
        0 <= blen,
        0 <= n,
        s >= 1,
    ensures
        overlap_test(a0 * s, alen * s, b0 * s, blen * s, n * s) == overlap_test(a0, alen, b0, blen, n),
{
    assert((alen * s == 0) == (alen == 0) && (blen * s == 0) == (blen == 0) && (n * s == 0) == (n
        == 0)) by (nonlinear_arith)
        requires
            alen >= 0,
            blen >= 0,
            n >= 0,
            s >= 1,
    ;
    assert((alen * s >= n * s) == (alen >= n)) by (nonlinear_arith)
        requires
            s >= 1,
    ;
    if n > 0 {
        let bs = turned_start(a0, b0, n);
        lemma_mod_scales(a0, n, s);
        let inner = b0 + n - a0 % n;
        assert(b0 * s + n * s - (a0 % n) * s == inner * s) by (nonlinear_arith)
            requires
                inner == b0 + n - a0 % n,
        ;
        lemma_mod_scales(inner, n, s);
        assert(turned_start(a0 * s, b0 * s, n * s) == bs * s);
        assert((bs * s < alen * s) == (bs < alen)) by (nonlinear_arith)
            requires
                s >= 1,
        ;
        assert((bs * s + blen * s > n * s) == (bs + blen > n)) by (nonlinear_arith)
            requires
                s >= 1,
        ;
    }
}

proof fn lemma_overlaps_is_test(a0: int, alen: int, b0: int, blen: int, n: int)
    requires
        0 <= a0,
        0 <= alen,
        0 <= b0,
        0 <= blen,
        0 <= n,
    ensures
        overlaps_spec(a0, alen, b0, blen, n) == overlap_test(a0, alen, b0, blen, n),
{
    if n > 0 {
        lemma_overlap_test_is_arcs_meet(a0, alen, b0, blen, n);
    }
}

/// Some position of the arc `[b0, b0 + blen)` lies, counted round the circle
/// from `a0`, less than `alen` steps past it.
pub open spec fn some_offset_within(a0: int, alen: int, b0: int, blen: int, n: int) -> bool {
    exists|k: int| 0 <= k < blen && #[trigger] ((b0 + k - a0) % n) < alen
}

/// Law: two arcs meet on a circle exactly when some position of the second,
/// measured round the circle from the start of the first, falls within the
/// first's length.
pub proof fn lemma_arcs_meet_is_an_offset_within(a0: int, alen: int, b0: int, blen: int, n: int)
    requires
        0 < n,
    ensures
        arcs_meet(a0, alen, b0, blen, n) == some_offset_within(a0, alen, b0, blen, n),
{
    if arcs_meet(a0, alen, b0, blen, n) {
        let (i, j) = choose|i: int, j: int|
            0 <= i < alen && 0 <= j < blen && #[trigger] on_circle(a0, i, n) == #[trigger] on_circle(
                b0,
                j,
                n,
            );
        let q1 = (b0 + j) / n;
        let q2 = (a0 + i) / n;
        vstd::arithmetic::div_mod::lemma_fundamental_div_mod(b0 + j, n);
        vstd::arithmetic::div_mod::lemma_fundamental_div_mod(a0 + i, n);
        assert(b0 + j - a0 == n * (q1 - q2) + i) by (nonlinear_arith)
            requires
                b0 + j == n * q1 + (b0 + j) % n,
                a0 + i == n * q2 + (a0 + i) % n,
                (b0 + j) % n == (a0 + i) % n,
        ;
        vstd::arithmetic::div_mod::lemma_mod_multiples_vanish(q1 - q2, i, n);
        vstd::arithmetic::div_mod::lemma_fundamental_div_mod(i, n);
        vstd::arithmetic::div_mod::lemma_div_pos_is_pos(i, n);
        vstd::arithmetic::div_mod::lemma_mod_bound(i, n);
        assert(i % n <= i) by (nonlinear_arith)
            requires
                i == n * (i / n) + i % n,
                i / n >= 0,
                n > 0,
        ;
        assert((b0 + j - a0) % n < alen);
    }
    if some_offset_within(a0, alen, b0, blen, n) {
        let k = choose|k: int| 0 <= k < blen && #[trigger] ((b0 + k - a0) % n) < alen;
        let d = (b0 + k - a0) % n;
        let q = (b0 + k - a0) / n;
        vstd::arithmetic::div_mod::lemma_fundamental_div_mod(b0 + k - a0, n);
        vstd::arithmetic::div_mod::lemma_mod_bound(b0 + k - a0, n);
        assert(a0 + d == n * (-q) + (b0 + k)) by (nonlinear_arith)
            requires
                b0 + k - a0 == n * q + d,
        ;
        vstd::arithmetic::div_mod::lemma_mod_multiples_vanish(-q, b0 + k, n);
        assert(on_circle(a0, d, n) == on_circle(b0, k, n));
    }
}

/// Law: a probe observes a block exactly when some fine cell of the block
/// lies under the probe laid on the torus: its column, counted round from
/// the probe's first column, is within the probe's width, and its row within
/// the probe's height.
pub proof fn lemma_probe_observes_a_cell_of_the_block(p: Probe, geom: Geometry, b: int)
    requires
        geom.w > 0,
        geom.h > 0,
    ensures
        p.observes(geom, b) == exists|x: int, y: int|
            #![trigger geom.in_block(b, x, y)]
            geom.in_block(b, x, y) && (x - p.x * geom.scale) % (geom.w as int) < p.width
                * geom.scale && (y - p.y * geom.scale) % (geom.h as int) < p.height * geom.scale,
{
    let s = geom.scale as int;
    let (x0, y0, x1, y1) = geom.bounds_spec(b);
    lemma_arcs_meet_is_an_offset_within(p.x * s, p.width * s, x0, x1 - x0, geom.w as int);
    lemma_arcs_meet_is_an_offset_within(p.y * s, p.height * s, y0, y1 - y0, geom.h as int);
    let cells = exists|x: int, y: int|
        #![trigger geom.in_block(b, x, y)]
        geom.in_block(b, x, y) && (x - p.x * s) % (geom.w as int) < p.width * s && (y - p.y * s)
            % (geom.h as int) < p.height * s;
    if p.observes(geom, b) {
        let kx = choose|k: int|
            0 <= k < x1 - x0 && #[trigger] ((x0 + k - p.x * s) % (geom.w as int)) < p.width * s;
        let ky = choose|k: int|
            0 <= k < y1 - y0 && #[trigger] ((y0 + k - p.y * s) % (geom.h as int)) < p.height * s;
        assert(geom.in_block(b, x0 + kx, y0 + ky));
    }
    if cells {
        let (x, y) = choose|x: int, y: int|
            #![trigger geom.in_block(b, x, y)]
            geom.in_block(b, x, y) && (x - p.x * s) % (geom.w as int) < p.width * s && (y - p.y
                * s) % (geom.h as int) < p.height * s;
        assert((x0 + (x - x0) - p.x * s) % (geom.w as int) < p.width * s);
        assert((y0 + (y - y0) - p.y * s) % (geom.h as int) < p.height * s);
    }
}

/// Law: the same probe covers the same physical region whether or not space
/// has been subdivided. A grid refined `s` times per axis, with blocks refined
/// to match, has the same blocks, and the probe touches exactly the same ones.
pub proof fn lemma_probe_sees_the_same_blocks_when_refined(
    p: Probe,
    coarse: Geometry,
    fine: Geometry,
    s: int,
)
    requires
        coarse.well_formed(),
        fine.well_formed(),
        coarse.scale == 1,
        s >= 1,
        fine.scale == s,
        fine.w == coarse.w * s,
        fine.h == coarse.h * s,
        fine.block == coarse.block * s,
    ensures
        fine.bw == coarse.bw,
        fine.bh == coarse.bh,
        forall|b: int| 0 <= b < coarse.blocks_spec() ==> p.observes(fine, b) == p.observes(coarse, b),
{
    let d = coarse.block as int;
    lemma_ceil_scales(coarse.w as int, d, s);
    lemma_ceil_scales(coarse.h as int, d, s);
    assert forall|b: int| 0 <= b < coarse.blocks_spec() implies p.observes(fine, b) == p.observes(
        coarse,
        b,
    ) by {
        assert(coarse.bw > 0) by {
            if coarse.bw == 0 {
                assert(coarse.bw * coarse.bh == 0) by (nonlinear_arith)
                    requires
                        coarse.bw == 0,
                ;
            }
        }
        let i = b % (coarse.bw as int);
        let j = b / (coarse.bw as int);
        vstd::arithmetic::div_mod::lemma_mod_bound(b, coarse.bw as int);
        vstd::arithmetic::div_mod::lemma_div_pos_is_pos(b, coarse.bw as int);
        vstd::arithmetic::div_mod::lemma_fundamental_div_mod(b, coarse.bw as int);
        assert(j < coarse.bh) by (nonlinear_arith)
            requires
                b == coarse.bw * j + i,
                0 <= i,
                b < coarse.bw * coarse.bh,
                coarse.bw > 0,
        ;
        crate::space::lemma_ceil_cover(coarse.w as int, d, i);
        crate::space::lemma_ceil_cover(coarse.h as int, d, j);
        let (x0, y0, x1, y1) = coarse.bounds_spec(b);
        let (fx0, fy0, fx1, fy1) = fine.bounds_spec(b);
        assert(fx0 == x0 * s && fy0 == y0 * s) by (nonlinear_arith)
            requires
                fx0 == i * (d * s),
                x0 == i * d,
                fy0 == j * (d * s),
                y0 == j * d,
        ;
        assert(x0 >= 0 && y0 >= 0) by (nonlinear_arith)
            requires
                x0 == i * d,
                y0 == j * d,
                i >= 0,
                j >= 0,
                d >= 1,
        ;
        lemma_min_scales(x0 + d, coarse.w as int, s);
        lemma_min_scales(y0 + d, coarse.h as int, s);
        assert(x0 * s + d * s == (x0 + d) * s && y0 * s + d * s == (y0 + d) * s)
            by (nonlinear_arith);
        assert(fx1 == x1 * s && fy1 == y1 * s);
        assert(fx1 - fx0 == (x1 - x0) * s && fy1 - fy0 == (y1 - y0) * s) by (nonlinear_arith)
            requires
                fx1 == x1 * s,
                fx0 == x0 * s,
                fy1 == y1 * s,
                fy0 == y0 * s,
        ;
        assert(x1 >= x0 || x1 < x0);
        lemma_overlaps_is_test(p.x * 1, p.width * 1, x0, x1 - x0, coarse.w as int);
        lemma_overlaps_is_test(p.y * 1, p.height * 1, y0, y1 - y0, coarse.h as int);
        lemma_overlaps_is_test(p.x * s, p.width * s, fx0, fx1 - fx0, fine.w as int);
        lemma_overlaps_is_test(p.y * s, p.height * s, fy0, fy1 - fy0, fine.h as int);
        lemma_overlap_test_scales(p.x as int, p.width as int, x0, x1 - x0, coarse.w as int, s);
        lemma_overlap_test_scales(p.y as int, p.height as int, y0, y1 - y0, coarse.h as int, s);
    }
}

proof fn lemma_min_scales(a: int, b: int, s: int)
    requires
        s >= 1,
    ensures
        crate::space::min_int(a * s, b * s) == crate::space::min_int(a, b) * s,
{
    assert((a * s <= b * s) == (a <= b)) by (nonlinear_arith)
        requires
            s >= 1,
    ;
}

proof fn lemma_ceil_scales(a: int, d: int, s: int)
    requires
        a >= 0,
        d >= 1,
        s >= 1,
    ensures
        crate::space::ceil_div(a * s, d * s) == crate::space::ceil_div(a, d),
{
    let q = a / d;
    let r = a % d;
    vstd::arithmetic::div_mod::lemma_fundamental_div_mod(a, d);
    vstd::arithmetic::div_mod::lemma_mod_bound(a, d);
    let c = crate::space::ceil_div(a, d);
    let c2 = crate::space::ceil_div(a * s, d * s);
    if r == 0 {
        assert(a * s + d * s - 1 == q * (d * s) + (d * s - 1)) by (nonlinear_arith)
            requires
                a == d * q + r,
                r == 0,
        ;
        assert(a + d - 1 == q * d + (d - 1)) by (nonlinear_arith)
            requires
                a == d * q + r,
                r == 0,
        ;
        assert(d * s >= 1) by (nonlinear_arith)
            requires
                d >= 1,
                s >= 1,
        ;
        vstd::arithmetic::div_mod::lemma_fundamental_div_mod_converse(
            a * s + d * s - 1,
            d * s,
            q,
            d * s - 1,
        );
        vstd::arithmetic::div_mod::lemma_fundamental_div_mod_converse(a + d - 1, d, q, d - 1);
    } else {
        assert(a * s + d * s - 1 == (q + 1) * (d * s) + (r * s - 1) && 0 <= r * s - 1 < d * s)
            by (nonlinear_arith)
            requires
                a == d * q + r,
                0 < r < d,
                s >= 1,
        ;
        assert(a + d - 1 == (q + 1) * d + (r - 1)) by (nonlinear_arith)
            requires
                a == d * q + r,
        ;
        vstd::arithmetic::div_mod::lemma_fundamental_div_mod_converse(
            a * s + d * s - 1,
            d * s,
            q + 1,
            r * s - 1,
        );
        vstd::arithmetic::div_mod::lemma_fundamental_div_mod_converse(a + d - 1, d, q + 1, r - 1);
    }
}

} // verus!
