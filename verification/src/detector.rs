//! Detection: can an inhabitant tell, from the inside, that it is running
//! under limits?
//!
//! An [`Inhabitant`] is not an agent. It is a measuring apparatus with an
//! honest access restriction: it reads its own region of its own world, one
//! tick at a time, and never sees a configuration, a constraint flag or a
//! second universe.
//!
//! This file holds the inhabitant's causal measurement — how far from anything
//! previously alive new life appeared — which works on cells alone. The
//! statistical measurements, which work on densities, run in the program
//! around this library.

use vstd::prelude::*;
use crate::observer::Probe;
use crate::space::{Geometry, World};

verus! {

/// Where an inhabitant lives. It can measure here and nowhere else.
#[derive(Clone, Copy, Debug, PartialEq, Eq, Structural)]
pub struct Inhabitant {
    pub x: usize,
    pub y: usize,
    pub width: usize,
    pub height: usize,
}

impl Default for Inhabitant {
    fn default() -> (i: Self)
        ensures
            i == (Inhabitant { x: 0, y: 0, width: 64, height: 64 }),
    {
        Inhabitant { x: 0, y: 0, width: 64, height: 64 }
    }
}

/// Whether an inhabitant's looking is itself an observation.
///
/// By the framework's definition a probe is the event that forces
/// full-resolution computation of a region, so an inhabitant examining its
/// surroundings is a probe: [`Gaze::Rendering`], the honest default.
/// [`Gaze::Passive`] is a reader that sees without forcing computation, kept
/// so that a negative result can be shown to follow from the definition.
#[derive(Clone, Copy, Debug, PartialEq, Eq, Structural)]
pub enum Gaze {
    Rendering,
    Passive,
}

impl Gaze {
    pub fn label(&self) -> (r: &'static str)
        ensures
            r@ == (match self {
                Gaze::Rendering => "looking renders"@,
                Gaze::Passive => "reads without rendering"@,
            }),
    {
        match self {
            Gaze::Rendering => "looking renders",
            Gaze::Passive => "reads without rendering",
        }
    }
}

/// The torus position of the `k`-th cell of an inhabitant's region, read row
/// by row.
pub open spec fn home_cell(who: Inhabitant, g: Geometry, k: int) -> (usize, usize) {
    (
        (((who.x + k % (who.width as int)) as isize) as int % (g.w as int)) as usize,
        (((who.y + k / (who.width as int)) as isize) as int % (g.h as int)) as usize,
    )
}

impl Inhabitant {
    /// The inhabitant considered as an observer of its own world.
    pub fn as_probe(&self) -> (p: Probe)
        ensures
            p == (Probe { x: self.x, y: self.y, width: self.width, height: self.height }),
    {
        Probe { x: self.x, y: self.y, width: self.width, height: self.height }
    }

    /// Cells of its own world an inhabitant can reach, wrapped onto the torus,
    /// row by row.
    pub fn cells(&self, geom: &Geometry) -> (r: Vec<(usize, usize)>)
        requires
            0 < geom.w <= isize::MAX,
            0 < geom.h <= isize::MAX,
            self.width == 0 || self.x + self.width - 1 <= usize::MAX,
            self.height == 0 || self.y + self.height - 1 <= usize::MAX,
            self.width * self.height <= usize::MAX,
        ensures
            r.len() == self.width * self.height,
            forall|k: int| 0 <= k < r.len() ==> r[k] == home_cell(*self, *geom, k),
    {
        let mut out: Vec<(usize, usize)> = Vec::new();
        let mut row: usize = 0;
        while row < self.height
            invariant
                0 < geom.w <= isize::MAX,
                0 < geom.h <= isize::MAX,
                self.width == 0 || self.x + self.width - 1 <= usize::MAX,
                self.height == 0 || self.y + self.height - 1 <= usize::MAX,
                self.width * self.height <= usize::MAX,
                row <= self.height,
                out.len() == row * self.width,
                forall|k: int| 0 <= k < out.len() ==> out[k] == home_cell(*self, *geom, k),
            decreases self.height - row,
        {
            let mut col: usize = 0;
            while col < self.width
                invariant
                    0 < geom.w <= isize::MAX,
                    0 < geom.h <= isize::MAX,
                    self.width == 0 || self.x + self.width - 1 <= usize::MAX,
                    row < self.height,
                    self.y + self.height - 1 <= usize::MAX,
                    self.width * self.height <= usize::MAX,
                    col <= self.width,
                    out.len() == row * self.width + col,
                    forall|k: int| 0 <= k < out.len() ==> out[k] == home_cell(*self, *geom, k),
                decreases self.width - col,
            {
                let k = row * self.width + col;
                proof {
                    vstd::arithmetic::div_mod::lemma_fundamental_div_mod_converse(
                        k as int,
                        self.width as int,
                        row as int,
                        col as int,
                    );
                    assert(row * self.width + col <= self.width * self.height) by (nonlinear_arith)
                        requires
                            row < self.height,
                            col < self.width,
                    ;
                }
                let cx = geom.wrap_x(#[verifier::truncate] ((self.x + col) as isize));
                let cy = geom.wrap_y(#[verifier::truncate] ((self.y + row) as isize));
                out.push((cx, cy));
                col = col + 1;
            }
            proof {
                assert((row + 1) * self.width == row * self.width + self.width) by (nonlinear_arith);
            }
            row = row + 1;
        }
        proof {
            vstd::arithmetic::mul::lemma_mul_is_commutative(self.height as int, self.width as int);
        }
        out
    }
}

/// How far the search for a causal ancestor goes before giving up.
pub const MAX_SEARCH: usize = 8;

/// The torus position `(dx, dy)` away from `(x, y)`.
pub open spec fn offset_cell(g: Geometry, x: int, y: int, dx: int, dy: int) -> (int, int) {
    ((x + dx) % (g.w as int), (y + dy) % (g.h as int))
}

/// Whether `(dx, dy)` lies on the square ring at Chebyshev distance `r`.
pub open spec fn on_ring(r: int, dx: int, dy: int) -> bool {
    -r <= dx <= r && -r <= dy <= r && (dx == r || dx == -r || dy == r || dy == -r)
}

/// The cell at offset `(dx, dy)` has cells to read, and one of them is live.
pub open spec fn seen_live(w: World, x: int, y: int, dx: int, dy: int) -> bool {
    let (nx, ny) = offset_cell(w.geom, x, y, dx, dy);
    w.resolved[w.geom.block_of_spec(nx, ny)] && w.cells[w.geom.idx_spec(nx, ny)] == 1
}

/// The cell at offset `(dx, dy)` lies in coarse ground, with no cells to read.
pub open spec fn seen_coarse(w: World, x: int, y: int, dx: int, dy: int) -> bool {
    let (nx, ny) = offset_cell(w.geom, x, y, dx, dy);
    !w.resolved[w.geom.block_of_spec(nx, ny)]
}

pub open spec fn ring_has_live(w: World, x: int, y: int, r: int) -> bool {
    exists|dx: int, dy: int| on_ring(r, dx, dy) && #[trigger] seen_live(w, x, y, dx, dy)
}

pub open spec fn ring_has_coarse(w: World, x: int, y: int, r: int) -> bool {
    exists|dx: int, dy: int| on_ring(r, dx, dy) && #[trigger] seen_coarse(w, x, y, dx, dy)
}

/// Chebyshev distance from `(x, y)` to the nearest live cell, searching ring by
/// ring from ring `r`; `None` when the search reaches coarse ground first or
/// runs past [`MAX_SEARCH`].
pub open spec fn nearest_from(w: World, x: int, y: int, r: int) -> Option<usize>
    decreases MAX_SEARCH + 1 - r,
{
    if r < 1 || r > MAX_SEARCH {
        None
    } else if ring_has_live(w, x, y, r) {
        Some(r as usize)
    } else if ring_has_coarse(w, x, y, r) {
        None
    } else {
        nearest_from(w, x, y, r + 1)
    }
}

/// Whether a world's cells can be searched around `(x, y)` without leaving
/// machine integers.
pub open spec fn searchable(w: World, x: int, y: int) -> bool {
    &&& w.well_formed()
    &&& 0 <= x < w.geom.w
    &&& 0 <= y < w.geom.h
    &&& w.geom.w + MAX_SEARCH <= isize::MAX
    &&& w.geom.h + MAX_SEARCH <= isize::MAX
}

proof fn lemma_cell_in_world(w: World, x: int, y: int)
    requires
        w.well_formed(),
        0 <= x < w.geom.w,
        0 <= y < w.geom.h,
    ensures
        0 <= w.geom.block_of_spec(x, y) < w.resolved.len(),
        0 <= w.geom.idx_spec(x, y) < w.cells.len(),
{
    crate::space::lemma_block_of_contains(w.geom, x, y);
    assert(0 <= y * w.geom.w + x < w.geom.w * w.geom.h) by (nonlinear_arith)
        requires
            0 <= x < w.geom.w,
            0 <= y < w.geom.h,
    ;
}

/// Chebyshev distance from a cell to the nearest cell that was live, searching
/// outward ring by ring.
///
/// Returns `None` if the search reaches coarse ground before it finds anything.
/// A birth beside a region with no cells in it has a cause the inhabitant
/// cannot see, and counting it would report influence travelling further than
/// it did. Only samples with complete information in reach are used.
pub fn nearest_live_before(before: &World, x: usize, y: usize) -> (r: Option<usize>)
    requires
        searchable(*before, x as int, y as int),
    ensures
        r == nearest_from(*before, x as int, y as int, 1),
        r matches Some(d) ==> 1 <= d <= MAX_SEARCH,
{
    proof {
        lemma_nearest_is_in_reach(*before, x as int, y as int, 1);
    }
    let geom = &before.geom;
    let mut r: usize = 1;
    while r <= MAX_SEARCH
        invariant
            searchable(*before, x as int, y as int),
            *geom == before.geom,
            1 <= r <= MAX_SEARCH + 1,
            nearest_from(*before, x as int, y as int, r as int) == nearest_from(
                *before,
                x as int,
                y as int,
                1,
            ),
        decreases MAX_SEARCH + 1 - r,
    {
        let ri = r as isize;
        let mut incomplete = false;
        let mut dy: isize = -ri;
        while dy <= ri
            invariant
                searchable(*before, x as int, y as int),
                *geom == before.geom,
                1 <= r <= MAX_SEARCH,
                ri == r,
                -ri <= dy <= ri + 1,
                nearest_from(*before, x as int, y as int, r as int) == nearest_from(
                    *before,
                    x as int,
                    y as int,
                    1,
                ),
                forall|ddx: int, ddy: int|
                    on_ring(r as int, ddx, ddy) && ddy < dy ==> !#[trigger] seen_live(
                        *before,
                        x as int,
                        y as int,
                        ddx,
                        ddy,
                    ),
                incomplete == exists|ddx: int, ddy: int|
                    on_ring(r as int, ddx, ddy) && ddy < dy && #[trigger] seen_coarse(
                        *before,
                        x as int,
                        y as int,
                        ddx,
                        ddy,
                    ),
            decreases ri + 1 - dy,
        {
            let mut dx: isize = -ri;
            let ghost incomplete_before_row = incomplete;
            while dx <= ri
                invariant
                    searchable(*before, x as int, y as int),
                    *geom == before.geom,
                    1 <= r <= MAX_SEARCH,
                    ri == r,
                    -ri <= dy <= ri,
                    -ri <= dx <= ri + 1,
                    nearest_from(*before, x as int, y as int, r as int) == nearest_from(
                        *before,
                        x as int,
                        y as int,
                        1,
                    ),
                    forall|ddx: int, ddy: int|
                        on_ring(r as int, ddx, ddy) && (ddy < dy || (ddy == dy && ddx < dx))
                            ==> !#[trigger] seen_live(*before, x as int, y as int, ddx, ddy),
                    incomplete == exists|ddx: int, ddy: int|
                        on_ring(r as int, ddx, ddy) && (ddy < dy || (ddy == dy && ddx < dx))
                            && #[trigger] seen_coarse(*before, x as int, y as int, ddx, ddy),
                decreases ri + 1 - dx,
            {
                // Only the ring at exactly distance r.
                let on_this_ring = dx == ri || dx == -ri || dy == ri || dy == -ri;
                if on_this_ring {
                    let nx = geom.wrap_x(x as isize + dx);
                    let ny = geom.wrap_y(y as isize + dy);
                    proof {
                        lemma_cell_in_world(*before, nx as int, ny as int);
                        crate::space::lemma_block_of_contains(*geom, nx as int, ny as int);
                        crate::space::lemma_blocks_fit(*geom);
                    }
                    assert(offset_cell(*geom, x as int, y as int, dx as int, dy as int) == (
                    nx as int, ny as int));
                    let b = geom.block_of(nx, ny);
                    if !before.resolved[b] {
                        incomplete = true;
                        assert(seen_coarse(*before, x as int, y as int, dx as int, dy as int));
                    } else {
                        let i = geom.idx(nx, ny);
                        if before.cells[i] == 1 {
                            assert(seen_live(*before, x as int, y as int, dx as int, dy as int));
                            assert(ring_has_live(*before, x as int, y as int, r as int));
                            return Some(r);
                        }
                    }
                }
                dx = dx + 1;
            }
            dy = dy + 1;
        }
        if incomplete {
            return None;
        }
        r = r + 1;
    }
    None
}

proof fn lemma_nearest_is_in_reach(w: World, x: int, y: int, r: int)
    ensures
        nearest_from(w, x, y, r) matches Some(d) ==> r <= d <= MAX_SEARCH && d >= 1,
    decreases MAX_SEARCH + 1 - r,
{
    if 1 <= r <= MAX_SEARCH && !ring_has_live(w, x, y, r) && !ring_has_coarse(w, x, y, r) {
        lemma_nearest_is_in_reach(w, x, y, r + 1);
    }
}

/// Whether the cell at `c` was born this tick, in ground where both ticks had
/// cells to read.
pub open spec fn born_in_view(before: World, after: World, c: (usize, usize)) -> bool {
    let b = after.geom.block_of_spec(c.0 as int, c.1 as int);
    let i = after.geom.idx_spec(c.0 as int, c.1 as int);
    before.resolved[b] && after.resolved[b] && before.cells[i] == 0 && after.cells[i] == 1
}

/// How far the birth at `c` was from its nearest visible ancestor, if it was a
/// birth with a visible ancestor at all.
pub open spec fn reach_at(before: World, after: World, c: (usize, usize)) -> Option<usize> {
    if born_in_view(before, after, c) {
        nearest_from(before, c.0 as int, c.1 as int, 1)
    } else {
        None
    }
}

pub open spec fn larger(a: Option<usize>, b: Option<usize>) -> Option<usize> {
    match (a, b) {
        (None, b) => b,
        (a, None) => a,
        (Some(m), Some(d)) => Some(if m >= d { m } else { d }),
    }
}

/// Greatest reach over the first `n` cells of `home`.
pub open spec fn reach_over(before: World, after: World, home: Seq<(usize, usize)>, n: nat) -> Option<
    usize,
>
    decreases n,
{
    if n == 0 {
        None
    } else {
        larger(reach_over(before, after, home, (n - 1) as nat), reach_at(before, after, home[n - 1]))
    }
}

/// The reach over the first `n` home cells is the greatest reach among them:
/// some cell among them reaches exactly that far and none reaches farther, and
/// there is no reach exactly when none of those cells has one.
pub proof fn lemma_reach_is_the_greatest(
    before: World,
    after: World,
    home: Seq<(usize, usize)>,
    n: nat,
)
    requires
        n <= home.len(),
    ensures
        reach_over(before, after, home, n) matches Some(d) ==> exists|k: int|
            0 <= k < n && #[trigger] reach_at(before, after, home[k]) == Some(d),
        reach_over(before, after, home, n) matches Some(d) ==> forall|k: int|
            0 <= k < n ==> (#[trigger] reach_at(before, after, home[k]) matches Some(e) ==> e
                <= d),
        reach_over(before, after, home, n) is None <==> forall|k: int|
            0 <= k < n ==> (#[trigger] reach_at(before, after, home[k])) is None,
    decreases n,
{
    if n > 0 {
        let m = (n - 1) as nat;
        lemma_reach_is_the_greatest(before, after, home, m);
        let last = reach_at(before, after, home[m as int]);
        let prev = reach_over(before, after, home, m);
        assert(reach_over(before, after, home, n) == larger(prev, last));
        match reach_over(before, after, home, n) {
            Some(d) => {
                if last == Some(d) {
                    assert(reach_at(before, after, home[m as int]) == Some(d));
                } else {
                    assert(prev == Some(d));
                    let k = choose|k: int| 0 <= k < m && #[trigger] reach_at(before, after, home[k]) == Some(d);
                    assert(0 <= k < n && reach_at(before, after, home[k]) == Some(d));
                }
                assert forall|k: int|
                    0 <= k < n implies (#[trigger] reach_at(before, after, home[k]) matches Some(
                        e,
                    ) ==> e <= d) by {
                    if k == m {
                    } else {
                    }
                }
            },
            None => {
                assert(prev is None && last is None);
                assert forall|k: int| 0 <= k < n implies (#[trigger] reach_at(before, after, home[k])) is None by {
                    if k == m {
                    } else {
                    }
                }
            },
        }
        if reach_over(before, after, home, n) is Some {
            if forall|k: int| 0 <= k < n ==> (#[trigger] reach_at(before, after, home[k])) is None {
                assert(reach_at(before, after, home[m as int]) is None);
                if prev is Some {
                    let d = prev->0;
                    let k = choose|k: int| 0 <= k < m && #[trigger] reach_at(before, after, home[k]) == Some(d);
                    assert(reach_at(before, after, home[k]) is None);
                }
            }
        }
    }
}

/// Greatest distance from a newly live cell to the nearest previously live one.
///
/// Coarse ground has no cells to read; births there are the texture
/// measurement's business, not this one's.
pub fn measure_reach(before: &World, after: &World, home: &[(usize, usize)]) -> (r: Option<usize>)
    requires
        before.well_formed(),
        after.well_formed(),
        before.geom == after.geom,
        before.geom.w + MAX_SEARCH <= isize::MAX,
        before.geom.h + MAX_SEARCH <= isize::MAX,
        forall|k: int|
            0 <= k < home@.len() ==> (#[trigger] home@[k]).0 < before.geom.w && home@[k].1
                < before.geom.h,
    ensures
        r == reach_over(*before, *after, home@, home@.len() as nat),
        r matches Some(d) ==> 1 <= d <= MAX_SEARCH,
        r matches Some(d) ==> exists|k: int|
            0 <= k < home@.len() && #[trigger] reach_at(*before, *after, home@[k]) == Some(d),
        r matches Some(d) ==> forall|k: int|
            0 <= k < home@.len() ==> (#[trigger] reach_at(*before, *after, home@[k]) matches Some(
                e,
            ) ==> e <= d),
        r is None <==> forall|k: int|
            0 <= k < home@.len() ==> (#[trigger] reach_at(*before, *after, home@[k])) is None,
{
    let geom = &after.geom;
    let mut best: Option<usize> = None;
    let mut k: usize = 0;
    while k < home.len()
        invariant
            before.well_formed(),
            after.well_formed(),
            before.geom == after.geom,
            *geom == after.geom,
            before.geom.w + MAX_SEARCH <= isize::MAX,
            before.geom.h + MAX_SEARCH <= isize::MAX,
            forall|j: int|
                0 <= j < home@.len() ==> (#[trigger] home@[j]).0 < before.geom.w && home@[j].1
                    < before.geom.h,
            k <= home@.len(),
            best == reach_over(*before, *after, home@, k as nat),
            best matches Some(d) ==> 1 <= d <= MAX_SEARCH,
        decreases home@.len() - k,
    {
        let (x, y) = home[k];
        proof {
            lemma_cell_in_world(*after, x as int, y as int);
            crate::space::lemma_blocks_fit(*geom);
            lemma_nearest_is_in_reach(*before, x as int, y as int, 1);
        }
        let b = geom.block_of(x, y);
        if before.resolved[b] && after.resolved[b] {
            let i = geom.idx(x, y);
            let born = before.cells[i] == 0 && after.cells[i] == 1;
            if born {
                match nearest_live_before(before, x, y) {
                    Some(d) => {
                        best = match best {
                            None => Some(d),
                            Some(m) => Some(if m >= d { m } else { d }),
                        };
                    },
                    None => {},
                }
            }
        }
        k = k + 1;
    }
    proof {
        lemma_reach_is_the_greatest(*before, *after, home@, home@.len() as nat);
    }
    best
}

/// Two limits that move the same measurement, and whether anything else tells
/// them apart.
#[derive(Clone, Debug)]
pub struct Degeneracy {
    pub limits: Vec<&'static str>,
    pub shared_signal: &'static str,
    /// A second statistic that does separate them, if one does.
    pub separable_by: Option<&'static str>,
}

} // verus!
