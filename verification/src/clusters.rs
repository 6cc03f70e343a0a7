//! Connected clusters of live cells, 8-connected, on the torus.
//!
//! A bootloader is found by following clusters through time. Finding the
//! clusters at one instant is exact work: which live cells belong together,
//! how many there are, and where each lies relative to the first of them.
//! Turning those sums into a centroid is floating-point work and is left to
//! the program around this library; the sums are integers, so nothing is lost
//! on the way.
//!
//! Only resolved ground is searched: a coarse-grained region has no cells to
//! belong to a cluster, which is the honest reading of what it contains.

use vstd::prelude::*;
use crate::space::{Geometry, World};

verus! {

/// Smallest cluster worth calling a structure.
pub const MIN_SIZE: usize = 3;

/// Largest. Beyond this it is a region, not a pattern going somewhere.
pub const MAX_SIZE: usize = 40;

// ---------------------------------------------------------------------------
// The grid as a graph.
// ---------------------------------------------------------------------------

/// One step of `o` (-1, 0 or +1) around a circle of `n` positions.
pub open spec fn step_around(p: int, o: int, n: int) -> int {
    if o < 0 {
        if p == 0 {
            n - 1
        } else {
            p - 1
        }
    } else if o > 0 {
        if p + 1 == n {
            0
        } else {
            p + 1
        }
    } else {
        p
    }
}

/// Column offset of the `k`-th of the eight neighbours, visited row by row.
pub open spec fn off_x(k: int) -> int {
    if k == 0 || k == 3 || k == 5 {
        -1
    } else if k == 1 || k == 6 {
        0
    } else {
        1
    }
}

/// Row offset of the `k`-th of the eight neighbours.
pub open spec fn off_y(k: int) -> int {
    if k < 3 {
        -1
    } else if k < 5 {
        0
    } else {
        1
    }
}

/// The `k`-th of the eight cells around cell `i`, wrapping at every edge.
pub open spec fn neighbour(g: Geometry, i: int, k: int) -> int {
    let w = g.w as int;
    let h = g.h as int;
    step_around(i / w, off_y(k), h) * w + step_around(i % w, off_x(k), w)
}

pub open spec fn adjacent(g: Geometry, i: int, j: int) -> bool {
    exists|k: int| 0 <= k < 8 && #[trigger] neighbour(g, i, k) == j
}

/// Cell index of a coordinate pair.
pub open spec fn cell_of(g: Geometry, e: (usize, usize)) -> int {
    g.idx_spec(e.0 as int, e.1 as int)
}

/// A live cell in ground that has cells to read.
pub open spec fn occupied(wd: World, i: int) -> bool {
    &&& 0 <= i < wd.geom.cells_spec()
    &&& wd.resolved@[wd.geom.block_of_spec(i % wd.geom.w as int, i / wd.geom.w as int)]
    &&& wd.cells@[i] == 1
}

pub open spec fn step_holds(wd: World, p: Seq<int>, t: int) -> bool {
    adjacent(wd.geom, p[t], p[t + 1])
}

/// A walk through occupied cells, each a neighbour of the one before.
pub open spec fn is_walk(wd: World, p: Seq<int>) -> bool {
    &&& p.len() > 0
    &&& forall|t: int| 0 <= t < p.len() ==> occupied(wd, #[trigger] p[t])
    &&& forall|t: int| 0 <= t < p.len() - 1 ==> #[trigger] step_holds(wd, p, t)
}

/// Some walk of occupied cells leads from `a` to `b`.
pub open spec fn connected(wd: World, a: int, b: int) -> bool {
    exists|p: Seq<int>| #[trigger] is_walk(wd, p) && p[0] == a && p.last() == b
}

/// The cells that belong together with `s`.
pub open spec fn component(wd: World, s: int) -> Set<int> {
    Set::new(|c: int| connected(wd, s, c))
}

/// Cell `s` is the first cell, in row-major order, of its component.
pub open spec fn is_root(wd: World, s: int) -> bool {
    &&& occupied(wd, s)
    &&& forall|j: int| 0 <= j < s ==> !#[trigger] connected(wd, j, s)
}

/// Sum of `f` over the members of `set` among the first `m` cells.
pub open spec fn indexed_sum(set: Set<int>, f: spec_fn(int) -> int, m: int) -> int
    decreases m,
{
    if m <= 0 {
        0
    } else {
        indexed_sum(set, f, m - 1) + if set.contains(m - 1) {
            f(m - 1)
        } else {
            0
        }
    }
}

pub open spec fn counting() -> spec_fn(int) -> int {
    |c: int| 1int
}

/// Shortest signed distance `d` on a circle of `n` positions, for `|d| < n`.
pub open spec fn wrapped_offset(d: int, n: int) -> int {
    if 2 * d > n {
        d - n
    } else if 2 * d < -n {
        d + n
    } else {
        d
    }
}

/// Column of a cell measured from the column of `s`, the short way round.
pub open spec fn column_offset(g: Geometry, s: int) -> spec_fn(int) -> int {
    |c: int| wrapped_offset(c % g.w as int - s % g.w as int, g.w as int)
}

/// Row of a cell measured from the row of `s`, the short way round.
pub open spec fn row_offset(g: Geometry, s: int) -> spec_fn(int) -> int {
    |c: int| wrapped_offset(c / g.w as int - s / g.w as int, g.h as int)
}

pub open spec fn component_size(wd: World, s: int) -> int {
    indexed_sum(component(wd, s), counting(), wd.geom.cells_spec())
}

/// Whether a cluster is kept: big enough to be a structure, small enough not
/// to be a region.
pub open spec fn kept(size: int) -> bool {
    MIN_SIZE <= size <= MAX_SIZE
}

/// One cluster: its first cell, its size, and the sums of its cells' offsets
/// from that first cell. The centroid is the first cell plus the mean offset.
#[derive(Clone, Copy, Debug)]
pub struct Component {
    pub x0: usize,
    pub y0: usize,
    pub size: usize,
    pub sum_dx: i128,
    pub sum_dy: i128,
}

impl Component {
    pub open spec fn root(&self, g: Geometry) -> int {
        g.idx_spec(self.x0 as int, self.y0 as int)
    }
}

/// `c` is exactly the component of the world that starts at its first cell.
pub open spec fn describes(wd: World, c: Component) -> bool {
    let g = wd.geom;
    let s = c.root(g);
    &&& c.x0 < g.w
    &&& c.y0 < g.h
    &&& is_root(wd, s)
    &&& c.size == component_size(wd, s)
    &&& c.sum_dx == indexed_sum(component(wd, s), column_offset(g, s), g.cells_spec())
    &&& c.sum_dy == indexed_sum(component(wd, s), row_offset(g, s), g.cells_spec())
}

// ---------------------------------------------------------------------------
// Facts about the graph.
// ---------------------------------------------------------------------------

proof fn lemma_coords(g: Geometry, x: int, y: int)
    requires
        0 <= x < g.w,
        0 <= y < g.h,
    ensures
        (y * g.w + x) % (g.w as int) == x,
        (y * g.w + x) / (g.w as int) == y,
        0 <= y * g.w + x < g.w * g.h,
{
    vstd::arithmetic::div_mod::lemma_fundamental_div_mod_converse(
        y * g.w + x,
        g.w as int,
        y,
        x,
    );
    assert(0 <= y * g.w + x < g.w * g.h) by (nonlinear_arith)
        requires
            0 <= x < g.w,
            0 <= y < g.h,
    ;
}

proof fn lemma_split(g: Geometry, i: int)
    requires
        0 <= i < g.w * g.h,
    ensures
        g.w > 0,
        0 <= i % (g.w as int) < g.w,
        0 <= i / (g.w as int) < g.h,
        i == (i / (g.w as int)) * g.w + i % (g.w as int),
{
    assert(g.w > 0) by (nonlinear_arith)
        requires
            0 <= i < g.w * g.h,
    ;
    vstd::arithmetic::div_mod::lemma_fundamental_div_mod(i, g.w as int);
    vstd::arithmetic::mul::lemma_mul_is_commutative(g.w as int, i / (g.w as int));
    vstd::arithmetic::div_mod::lemma_div_pos_is_pos(i, g.w as int);
    let q = i / (g.w as int);
    let r = i % (g.w as int);
    assert(q < g.h) by (nonlinear_arith)
        requires
            i == q * g.w + r,
            0 <= r,
            i < g.w * g.h,
            g.w > 0,
    ;
}

proof fn lemma_step_around(p: int, o: int, n: int)
    requires
        0 <= p < n,
        -1 <= o <= 1,
    ensures
        0 <= step_around(p, o, n) < n,
        step_around(step_around(p, o, n), -o, n) == p,
{
}

/// A neighbour of a cell is a cell, and its coordinates are one step away.
pub proof fn lemma_neighbour_in_range(g: Geometry, i: int, k: int)
    requires
        0 <= i < g.w * g.h,
        0 <= k < 8,
    ensures
        0 <= neighbour(g, i, k) < g.w * g.h,
        neighbour(g, i, k) % (g.w as int) == step_around(i % (g.w as int), off_x(k), g.w as int),
        neighbour(g, i, k) / (g.w as int) == step_around(i / (g.w as int), off_y(k), g.h as int),
{
    lemma_split(g, i);
    let x = i % (g.w as int);
    let y = i / (g.w as int);
    lemma_step_around(x, off_x(k), g.w as int);
    lemma_step_around(y, off_y(k), g.h as int);
    lemma_coords(
        g,
        step_around(x, off_x(k), g.w as int),
        step_around(y, off_y(k), g.h as int),
    );
}

/// Adjacency on the torus goes both ways.
pub proof fn lemma_adjacent_symmetric(g: Geometry, i: int, j: int)
    requires
        0 <= i < g.w * g.h,
        adjacent(g, i, j),
    ensures
        adjacent(g, j, i),
{
    let k = choose|k: int| 0 <= k < 8 && #[trigger] neighbour(g, i, k) == j;
    lemma_neighbour_in_range(g, i, k);
    lemma_split(g, i);
    let x = i % (g.w as int);
    let y = i / (g.w as int);
    lemma_step_around(x, off_x(k), g.w as int);
    lemma_step_around(y, off_y(k), g.h as int);
    assert(off_x(7 - k) == -off_x(k) && off_y(7 - k) == -off_y(k));
    assert(neighbour(g, j, 7 - k) == i);
}

proof fn lemma_walk_extend(wd: World, p: Seq<int>, d: int)
    requires
        is_walk(wd, p),
        adjacent(wd.geom, p.last(), d),
        occupied(wd, d),
    ensures
        is_walk(wd, p.push(d)),
        p.push(d)[0] == p[0],
        p.push(d).last() == d,
{
    let q = p.push(d);
    assert forall|t: int| 0 <= t < q.len() implies occupied(wd, #[trigger] q[t]) by {
        if t < p.len() {
            assert(q[t] == p[t]);
        }
    }
    assert forall|t: int| 0 <= t < q.len() - 1 implies #[trigger] step_holds(wd, q, t) by {
        if t < p.len() - 1 {
            assert(step_holds(wd, p, t));
        }
    }
}

/// A cell that is occupied is connected to itself.
pub proof fn lemma_connected_refl(wd: World, a: int)
    requires
        occupied(wd, a),
    ensures
        connected(wd, a, a),
{
    let p = seq![a];
    assert(is_walk(wd, p));
}

/// Connection grows by one occupied neighbour at a time.
pub proof fn lemma_connected_extend(wd: World, a: int, c: int, d: int)
    requires
        connected(wd, a, c),
        adjacent(wd.geom, c, d),
        occupied(wd, d),
    ensures
        connected(wd, a, d),
{
    let p = choose|p: Seq<int>| #[trigger] is_walk(wd, p) && p[0] == a && p.last() == c;
    lemma_walk_extend(wd, p, d);
    assert(is_walk(wd, p.push(d)));
}

/// Connection goes both ways.
pub proof fn lemma_connected_symmetric(wd: World, a: int, b: int)
    requires
        connected(wd, a, b),
    ensures
        connected(wd, b, a),
{
    let p = choose|p: Seq<int>| #[trigger] is_walk(wd, p) && p[0] == a && p.last() == b;
    let q = p.reverse();
    let n = p.len() as int;
    assert forall|t: int| 0 <= t < q.len() implies occupied(wd, #[trigger] q[t]) by {
        assert(q[t] == p[n - 1 - t]);
    }
    assert forall|t: int| 0 <= t < q.len() - 1 implies #[trigger] step_holds(wd, q, t) by {
        let u = n - 2 - t;
        assert(step_holds(wd, p, u));
        assert(occupied(wd, p[u]));
        lemma_adjacent_symmetric(wd.geom, p[u], p[u + 1]);
        assert(q[t] == p[u + 1]);
        assert(q[t + 1] == p[u]);
    }
    assert(is_walk(wd, q));
}

/// Connection chains.
pub proof fn lemma_connected_trans(wd: World, a: int, b: int, c: int)
    requires
        connected(wd, a, b),
        connected(wd, b, c),
    ensures
        connected(wd, a, c),
{
    let p = choose|p: Seq<int>| #[trigger] is_walk(wd, p) && p[0] == a && p.last() == b;
    let q = choose|q: Seq<int>| #[trigger] is_walk(wd, q) && q[0] == b && q.last() == c;
    let r = p + q.drop_first();
    let n = p.len() as int;
    assert forall|t: int| 0 <= t < r.len() implies occupied(wd, #[trigger] r[t]) by {
        if t < n {
            assert(r[t] == p[t]);
        } else {
            assert(r[t] == q[t - n + 1]);
        }
    }
    assert forall|t: int| 0 <= t < r.len() - 1 implies #[trigger] step_holds(wd, r, t) by {
        if t < n - 1 {
            assert(step_holds(wd, p, t));
            assert(r[t] == p[t] && r[t + 1] == p[t + 1]);
        } else if t == n - 1 {
            assert(step_holds(wd, q, 0));
            assert(r[t] == p[n - 1] && r[t + 1] == q[1]);
        } else {
            assert(step_holds(wd, q, t - n + 1));
            assert(r[t] == q[t - n + 1] && r[t + 1] == q[t - n + 2]);
        }
    }
    if q.len() == 1 {
        assert(r.last() == p.last());
    } else {
        assert(r.last() == q.last());
    }
    assert(is_walk(wd, r));
}

proof fn lemma_root_below(wd: World, d: int, c: int)
    requires
        connected(wd, d, c),
        d >= 0,
    ensures
        exists|s: int| #[trigger] is_root(wd, s) && connected(wd, s, c),
    decreases d,
{
    lemma_connected_ends(wd, d, c);
    if is_root(wd, d) {
        assert(is_root(wd, d) && connected(wd, d, c));
    } else {
        let j = choose|j: int| 0 <= j < d && #[trigger] connected(wd, j, d);
        lemma_connected_trans(wd, j, d, c);
        lemma_root_below(wd, j, c);
    }
}

/// Law: the clusters partition resolved live ground. Every live cell in
/// resolved ground belongs to the component of exactly one first cell.
pub proof fn lemma_each_live_cell_has_one_root(wd: World, c: int)
    requires
        occupied(wd, c),
    ensures
        exists|s: int| #[trigger] is_root(wd, s) && connected(wd, s, c),
        forall|s1: int, s2: int|
            #[trigger] is_root(wd, s1) && connected(wd, s1, c) && #[trigger] is_root(wd, s2)
                && connected(wd, s2, c) ==> s1 == s2,
{
    lemma_connected_refl(wd, c);
    lemma_root_below(wd, c, c);
    assert forall|s1: int, s2: int|
        #[trigger] is_root(wd, s1) && connected(wd, s1, c) && #[trigger] is_root(wd, s2)
            && connected(wd, s2, c) implies s1 == s2 by {
        lemma_connected_ends(wd, s1, c);
        lemma_connected_ends(wd, s2, c);
        if s1 < s2 {
            lemma_connected_symmetric(wd, s2, c);
            lemma_connected_trans(wd, s1, c, s2);
        } else if s2 < s1 {
            lemma_connected_symmetric(wd, s1, c);
            lemma_connected_trans(wd, s2, c, s1);
        }
    }
}

/// Connected cells are occupied, at both ends.
pub proof fn lemma_connected_ends(wd: World, a: int, b: int)
    requires
        connected(wd, a, b),
    ensures
        occupied(wd, a),
        occupied(wd, b),
{
    let p = choose|p: Seq<int>| #[trigger] is_walk(wd, p) && p[0] == a && p.last() == b;
    assert(occupied(wd, p[0]));
    assert(occupied(wd, p[p.len() - 1]));
}

/// Every occupied neighbour of `c` is marked in `seen`.
pub open spec fn closed_at(wd: World, seen: Seq<bool>, c: int) -> bool {
    forall|k: int|
        0 <= k < 8 && occupied(wd, #[trigger] neighbour(wd.geom, c, k)) ==> seen[neighbour(
            wd.geom,
            c,
            k,
        )]
}

proof fn lemma_closed_at_grows(wd: World, a: Seq<bool>, b: Seq<bool>, c: int)
    requires
        closed_at(wd, a, c),
        a.len() == b.len(),
        forall|i: int| 0 <= i < a.len() && a[i] ==> b[i],
        a.len() == wd.geom.cells_spec(),
        0 <= c < wd.geom.cells_spec(),
    ensures
        closed_at(wd, b, c),
{
    assert forall|k: int|
        0 <= k < 8 && occupied(wd, #[trigger] neighbour(wd.geom, c, k)) implies b[neighbour(
        wd.geom,
        c,
        k,
    )] by {
        lemma_neighbour_in_range(wd.geom, c, k);
    }
}

/// A walk that starts in a marked set closed under occupied neighbours never
/// leaves it.
proof fn lemma_walk_stays(wd: World, seen: Seq<bool>, p: Seq<int>)
    requires
        is_walk(wd, p),
        seen.len() == wd.geom.cells_spec(),
        seen[p[0]],
        forall|i: int| 0 <= i < seen.len() && seen[i] ==> #[trigger] closed_at(wd, seen, i),
    ensures
        seen[p.last()],
    decreases p.len(),
{
    if p.len() > 1 {
        let q = p.drop_last();
        assert forall|t: int| 0 <= t < q.len() implies occupied(wd, #[trigger] q[t]) by {
            assert(q[t] == p[t]);
        }
        assert forall|t: int| 0 <= t < q.len() - 1 implies #[trigger] step_holds(wd, q, t) by {
            assert(step_holds(wd, p, t));
        }
        lemma_walk_stays(wd, seen, q);
        let u = p.len() - 2;
        assert(q.last() == p[u]);
        assert(step_holds(wd, p, u));
        assert(occupied(wd, p[u]));
        assert(closed_at(wd, seen, p[u]));
        let k = choose|k: int| 0 <= k < 8 && #[trigger] neighbour(wd.geom, p[u], k) == p[u + 1];
        assert(occupied(wd, p[u + 1]));
    }
}

/// A cell connected from a marked cell of a closed set is marked.
pub proof fn lemma_connected_stays(wd: World, seen: Seq<bool>, a: int, b: int)
    requires
        connected(wd, a, b),
        seen.len() == wd.geom.cells_spec(),
        seen[a],
        forall|i: int| 0 <= i < seen.len() && seen[i] ==> #[trigger] closed_at(wd, seen, i),
    ensures
        seen[b],
{
    let p = choose|p: Seq<int>| #[trigger] is_walk(wd, p) && p[0] == a && p.last() == b;
    lemma_walk_stays(wd, seen, p);
}

// ---------------------------------------------------------------------------
// Sums over sets of cells, in index order.
// ---------------------------------------------------------------------------

proof fn lemma_sum_agree(a: Set<int>, b: Set<int>, f: spec_fn(int) -> int, m: int)
    requires
        forall|i: int| 0 <= i < m ==> (a.contains(i) <==> b.contains(i)),
    ensures
        indexed_sum(a, f, m) == indexed_sum(b, f, m),
    decreases m,
{
    if m > 0 {
        lemma_sum_agree(a, b, f, m - 1);
    }
}

proof fn lemma_sum_insert(a: Set<int>, f: spec_fn(int) -> int, e: int, m: int)
    requires
        !a.contains(e),
        0 <= e < m,
    ensures
        indexed_sum(a.insert(e), f, m) == indexed_sum(a, f, m) + f(e),
    decreases m,
{
    if m - 1 > e {
        lemma_sum_insert(a, f, e, m - 1);
    } else {
        lemma_sum_agree(a.insert(e), a, f, m - 1);
    }
}

proof fn lemma_sum_empty(f: spec_fn(int) -> int, m: int)
    ensures
        indexed_sum(Set::<int>::empty(), f, m) == 0,
    decreases m,
{
    if m > 0 {
        lemma_sum_empty(f, m - 1);
    }
}

proof fn lemma_count_bounds(a: Set<int>, m: int)
    requires
        m >= 0,
    ensures
        0 <= indexed_sum(a, counting(), m) <= m,
    decreases m,
{
    if m > 0 {
        lemma_count_bounds(a, m - 1);
    }
}

proof fn lemma_count_grows(a: Set<int>, b: Set<int>, m: int)
    requires
        forall|i: int| 0 <= i < m && a.contains(i) ==> b.contains(i),
    ensures
        indexed_sum(a, counting(), m) <= indexed_sum(b, counting(), m),
    decreases m,
{
    if m > 0 {
        lemma_count_grows(a, b, m - 1);
    }
}

// ---------------------------------------------------------------------------
// Finding the clusters.
// ---------------------------------------------------------------------------

/// Whether a cell is live in ground that has cells to read. A coarse-grained
/// region has no cells to belong to a structure, which is the honest reading
/// of what it contains.
pub fn live_at(w: &World, x: usize, y: usize) -> (r: bool)
    requires
        w.well_formed(),
        x < w.geom.w,
        y < w.geom.h,
    ensures
        r == (w.resolved[w.geom.block_of_spec(x as int, y as int)] && w.cells[w.geom.idx_spec(
            x as int,
            y as int,
        )] == 1),
        r == occupied(*w, w.geom.idx_spec(x as int, y as int)),
{
    proof {
        crate::space::lemma_block_of_contains(w.geom, x as int, y as int);
        crate::space::lemma_blocks_fit(w.geom);
        lemma_coords(w.geom, x as int, y as int);
    }
    let b = w.geom.block_of(x, y);
    w.resolved[b] && w.cells[w.geom.idx(x, y)] == 1
}

/// The `k`-th of the eight neighbours of `(x, y)`, wrapping at every edge.
fn neighbour_of(g: &Geometry, x: usize, y: usize, k: usize) -> (r: (usize, usize))
    requires
        x < g.w,
        y < g.h,
        k < 8,
    ensures
        r.0 == step_around(x as int, off_x(k as int), g.w as int),
        r.1 == step_around(y as int, off_y(k as int), g.h as int),
        r.0 < g.w,
        r.1 < g.h,
{
    let nx = if k == 0 || k == 3 || k == 5 {
        if x == 0 {
            g.w - 1
        } else {
            x - 1
        }
    } else if k == 1 || k == 6 {
        x
    } else if x + 1 == g.w {
        0
    } else {
        x + 1
    };
    let ny = if k < 3 {
        if y == 0 {
            g.h - 1
        } else {
            y - 1
        }
    } else if k < 5 {
        y
    } else if y + 1 == g.h {
        0
    } else {
        y + 1
    };
    (nx, ny)
}

/// Signed distance from `b` to `a` on a circle of `n` positions, the short
/// way round.
fn offset_between(a: usize, b: usize, n: usize) -> (r: i128)
    requires
        a < n,
        b < n,
    ensures
        r == wrapped_offset(a - b, n as int),
        -(n as int) <= 2 * r <= n,
{
    let d: i128 = a as i128 - b as i128;
    let m: i128 = n as i128;
    if 2 * d > m {
        d - m
    } else if 2 * d < -m {
        d + m
    } else {
        d
    }
}

/// Mark every unmarked live neighbour of `(x, y)` and push it for a visit.
fn visit_neighbours(
    wd: &World,
    x: usize,
    y: usize,
    seen: &mut Vec<bool>,
    stack: &mut Vec<(usize, usize)>,
)
    requires
        wd.well_formed(),
        x < wd.geom.w,
        y < wd.geom.h,
        old(seen)@.len() == wd.geom.cells_spec(),
    ensures
        final(seen)@.len() == old(seen)@.len(),
        old(stack)@.len() <= final(stack)@.len(),
        final(stack)@.subrange(0, old(stack)@.len() as int) == old(stack)@,
        forall|i: int| 0 <= i < old(seen)@.len() && old(seen)@[i] ==> final(seen)@[i],
        forall|i: int|
            0 <= i < old(seen)@.len() && #[trigger] final(seen)@[i] && !old(seen)@[i] ==> {
                &&& occupied(*wd, i)
                &&& adjacent(wd.geom, wd.geom.idx_spec(x as int, y as int), i)
                &&& exists|t: int|
                    old(stack)@.len() <= t < final(stack)@.len() && #[trigger] cell_of(
                        wd.geom,
                        final(stack)@[t],
                    ) == i
            },
        forall|t: int|
            old(stack)@.len() <= t < final(stack)@.len() ==> {
                &&& (#[trigger] final(stack)@[t]).0 < wd.geom.w
                &&& final(stack)@[t].1 < wd.geom.h
                &&& !old(seen)@[cell_of(wd.geom, final(stack)@[t])]
                &&& final(seen)@[cell_of(wd.geom, final(stack)@[t])]
            },
        forall|t1: int, t2: int|
            old(stack)@.len() <= t1 < t2 < final(stack)@.len() ==> cell_of(
                wd.geom,
                #[trigger] final(stack)@[t1],
            ) != cell_of(wd.geom, #[trigger] final(stack)@[t2]),
        closed_at(*wd, final(seen)@, wd.geom.idx_spec(x as int, y as int)),
{
    let ghost g = wd.geom;
    let ghost n = g.cells_spec();
    let ghost s0 = seen@;
    let ghost st0 = stack@;
    let ghost c = g.idx_spec(x as int, y as int);
    proof {
        lemma_coords(g, x as int, y as int);
    }
    let mut k: usize = 0;
    while k < 8
        invariant
            wd.well_formed(),
            g == wd.geom,
            n == g.cells_spec(),
            x < g.w,
            y < g.h,
            c == g.idx_spec(x as int, y as int),
            0 <= c < n,
            c % (g.w as int) == x,
            c / (g.w as int) == y,
            k <= 8,
            s0.len() == n,
            seen@.len() == n,
            st0.len() <= stack@.len(),
            stack@.subrange(0, st0.len() as int) == st0,
            forall|i: int| 0 <= i < n && s0[i] ==> seen@[i],
            forall|i: int|
                0 <= i < n && #[trigger] seen@[i] && !s0[i] ==> {
                    &&& occupied(*wd, i)
                    &&& adjacent(g, c, i)
                    &&& exists|t: int|
                        st0.len() <= t < stack@.len() && #[trigger] cell_of(g, stack@[t]) == i
                },
            forall|t: int|
                st0.len() <= t < stack@.len() ==> {
                    &&& (#[trigger] stack@[t]).0 < g.w
                    &&& stack@[t].1 < g.h
                    &&& !s0[cell_of(g, stack@[t])]
                    &&& seen@[cell_of(g, stack@[t])]
                },
            forall|t1: int, t2: int|
                st0.len() <= t1 < t2 < stack@.len() ==> cell_of(g, #[trigger] stack@[t1])
                    != cell_of(g, #[trigger] stack@[t2]),
            forall|j: int|
                0 <= j < k && occupied(*wd, #[trigger] neighbour(g, c, j)) ==> seen@[neighbour(
                    g,
                    c,
                    j,
                )],
        decreases 8 - k,
    {
        let (nx, ny) = neighbour_of(&wd.geom, x, y, k);
        proof {
            lemma_neighbour_in_range(g, c, k as int);
            lemma_coords(g, nx as int, ny as int);
            assert(cell_of(g, (nx, ny)) == neighbour(g, c, k as int));
        }
        let ni = wd.geom.idx(nx, ny);
        if !seen[ni] && live_at(wd, nx, ny) {
            let ghost before = seen@;
            let ghost st_before = stack@;
            seen.set(ni, true);
            stack.push((nx, ny));
            proof {
                assert(adjacent(g, c, ni as int));
                assert(stack@.subrange(0, st0.len() as int) =~= st0);
                assert(cell_of(g, stack@[stack@.len() - 1]) == ni);
                assert forall|i: int|
                    0 <= i < n && #[trigger] seen@[i] && !s0[i] implies {
                    &&& occupied(*wd, i)
                    &&& adjacent(g, c, i)
                    &&& exists|t: int|
                        st0.len() <= t < stack@.len() && #[trigger] cell_of(g, stack@[t]) == i
                } by {
                    if i == ni {
                        assert(cell_of(g, stack@[stack@.len() - 1]) == i);
                    } else {
                        assert(before[i]);
                        let t = choose|t: int|
                            st0.len() <= t < st_before.len() && #[trigger] cell_of(
                                g,
                                st_before[t],
                            ) == i;
                        assert(stack@[t] == st_before[t]);
                    }
                }
                assert forall|t1: int, t2: int|
                    st0.len() <= t1 < t2 < stack@.len() implies cell_of(
                    g,
                    #[trigger] stack@[t1],
                ) != cell_of(g, #[trigger] stack@[t2]) by {
                    if t2 == stack@.len() - 1 {
                        assert(stack@[t1] == st_before[t1]);
                        assert(before[cell_of(g, st_before[t1])]);
                    } else {
                        assert(stack@[t1] == st_before[t1]);
                        assert(stack@[t2] == st_before[t2]);
                    }
                }
                assert forall|t: int| st0.len() <= t < stack@.len() implies {
                    &&& (#[trigger] stack@[t]).0 < g.w
                    &&& stack@[t].1 < g.h
                    &&& !s0[cell_of(g, stack@[t])]
                    &&& seen@[cell_of(g, stack@[t])]
                } by {
                    if t < stack@.len() - 1 {
                        assert(stack@[t] == st_before[t]);
                        lemma_coords(g, st_before[t].0 as int, st_before[t].1 as int);
                        assert(before[cell_of(g, st_before[t])]);
                        assert(cell_of(g, st_before[t]) != ni);
                    } else {
                        assert(stack@[t] == (nx, ny));
                        assert(!before[ni as int]);
                    }
                }
            }
        }
        k = k + 1;
    }
    proof {
        assert(stack@.subrange(0, st0.len() as int) =~= st0);
    }
}

/// Every cell of a marked set is closed: the set is a union of whole
/// components.
pub open spec fn all_closed(wd: World, seen: Seq<bool>) -> bool {
    forall|i: int| 0 <= i < seen.len() && seen[i] ==> #[trigger] closed_at(wd, seen, i)
}

/// Mark the whole component of `(x0, y0)` and measure it: its size, and the
/// sums of its cells' column and row offsets from `(x0, y0)`.
fn flood(
    wd: &World,
    x0: usize,
    y0: usize,
    seen: &mut Vec<bool>,
    stack: &mut Vec<(usize, usize)>,
) -> (r: (usize, i128, i128))
    requires
        wd.well_formed(),
        x0 < wd.geom.w,
        y0 < wd.geom.h,
        old(stack)@.len() == 0,
        old(seen)@.len() == wd.geom.cells_spec(),
        !old(seen)@[wd.geom.idx_spec(x0 as int, y0 as int)],
        occupied(*wd, wd.geom.idx_spec(x0 as int, y0 as int)),
        all_closed(*wd, old(seen)@),
    ensures
        final(stack)@.len() == 0,
        final(seen)@.len() == old(seen)@.len(),
        forall|i: int|
            0 <= i < old(seen)@.len() ==> (#[trigger] final(seen)@[i] <==> (old(seen)@[i]
                || connected(*wd, wd.geom.idx_spec(x0 as int, y0 as int), i))),
        all_closed(*wd, final(seen)@),
        r.0 == component_size(*wd, wd.geom.idx_spec(x0 as int, y0 as int)),
        r.1 == indexed_sum(
            component(*wd, wd.geom.idx_spec(x0 as int, y0 as int)),
            column_offset(wd.geom, wd.geom.idx_spec(x0 as int, y0 as int)),
            wd.geom.cells_spec(),
        ),
        r.2 == indexed_sum(
            component(*wd, wd.geom.idx_spec(x0 as int, y0 as int)),
            row_offset(wd.geom, wd.geom.idx_spec(x0 as int, y0 as int)),
            wd.geom.cells_spec(),
        ),
{
    let ghost g = wd.geom;
    let ghost n = g.cells_spec();
    let ghost s = g.idx_spec(x0 as int, y0 as int);
    let ghost seen0 = seen@;
    proof {
        lemma_coords(g, x0 as int, y0 as int);
        lemma_connected_refl(*wd, s);
    }
    let start = wd.geom.idx(x0, y0);
    seen.set(start, true);
    stack.push((x0, y0));
    let ghost mut vis: Set<int> = Set::empty().insert(s);
    let ghost mut done: Set<int> = Set::empty();
    let mut size: usize = 0;
    let mut sum_dx: i128 = 0;
    let mut sum_dy: i128 = 0;
    proof {
        assert(cell_of(g, stack@[0]) == s);
        lemma_count_bounds(vis, n);
        lemma_sum_empty(counting(), n);
        lemma_sum_empty(column_offset(g, s), n);
        lemma_sum_empty(row_offset(g, s), n);
        assert forall|i: int| 0 <= i < n && seen0[i] implies #[trigger] closed_at(*wd, seen@, i) by {
            lemma_closed_at_grows(*wd, seen0, seen@, i);
        }
    }
    while stack.len() > 0
        invariant
            wd.well_formed(),
            g == wd.geom,
            n == g.cells_spec(),
            x0 < g.w,
            y0 < g.h,
            s == g.idx_spec(x0 as int, y0 as int),
            0 <= s < n,
            s % (g.w as int) == x0,
            s / (g.w as int) == y0,
            seen0.len() == n,
            !seen0[s],
            all_closed(*wd, seen0),
            seen@.len() == n,
            vis.contains(s),
            forall|i: int| 0 <= i < n ==> (#[trigger] seen@[i] <==> (seen0[i] || vis.contains(i))),
            forall|i: int|
                #[trigger] vis.contains(i) ==> 0 <= i < n && !seen0[i] && connected(*wd, s, i),
            forall|t: int|
                0 <= t < stack@.len() ==> {
                    &&& (#[trigger] stack@[t]).0 < g.w
                    &&& stack@[t].1 < g.h
                    &&& vis.contains(cell_of(g, stack@[t]))
                    &&& !done.contains(cell_of(g, stack@[t]))
                },
            forall|t1: int, t2: int|
                0 <= t1 < t2 < stack@.len() ==> cell_of(g, #[trigger] stack@[t1]) != cell_of(
                    g,
                    #[trigger] stack@[t2],
                ),
            forall|i: int|
                #[trigger] vis.contains(i) ==> done.contains(i) || exists|t: int|
                    0 <= t < stack@.len() && #[trigger] cell_of(g, stack@[t]) == i,
            forall|i: int| #[trigger] done.contains(i) ==> vis.contains(i),
            forall|i: int| 0 <= i < n && seen0[i] ==> #[trigger] closed_at(*wd, seen@, i),
            forall|i: int| #[trigger] done.contains(i) ==> closed_at(*wd, seen@, i),
            0 <= indexed_sum(vis, counting(), n) <= n,
            size == indexed_sum(done, counting(), n),
            sum_dx == indexed_sum(done, column_offset(g, s), n),
            sum_dy == indexed_sum(done, row_offset(g, s), n),
            -(size * g.w) <= 2 * sum_dx <= size * g.w,
            -(size * g.h) <= 2 * sum_dy <= size * g.h,
        decreases n - indexed_sum(vis, counting(), n), stack@.len(),
    {
        let ghost st = stack@;
        let ghost sn = seen@;
        let (x, y) = stack.pop().unwrap();
        let ghost c = cell_of(g, (x, y));
        proof {
            assert(st[st.len() - 1] == (x, y));
            assert(stack@ =~= st.drop_last());
            lemma_coords(g, x as int, y as int);
            assert(vis.contains(c));
            assert(!done.contains(c));
            lemma_count_grows(done.insert(c), vis, n);
            lemma_sum_insert(done, counting(), c, n);
        }
        let dx = offset_between(x, x0, wd.geom.w);
        let dy = offset_between(y, y0, wd.geom.h);
        proof {
            assert(size + 1 <= n);
            assert(n <= usize::MAX);
            assert((size + 1) * g.w <= n * g.w && (size + 1) * g.h <= n * g.h) by (nonlinear_arith)
                requires
                    size + 1 <= n,
            ;
            assert(n * g.w <= usize::MAX * usize::MAX && n * g.h <= usize::MAX * usize::MAX)
                by (nonlinear_arith)
                requires
                    0 <= n <= usize::MAX,
                    g.w <= usize::MAX,
                    g.h <= usize::MAX,
            ;
            assert((size + 1) * g.w == size * g.w + g.w && (size + 1) * g.h == size * g.h + g.h)
                by (nonlinear_arith);
        }
        sum_dx = sum_dx + dx;
        sum_dy = sum_dy + dy;
        size = size + 1;
        visit_neighbours(wd, x, y, seen, stack);
        proof {
            let st1 = st.drop_last();
            let sn2 = seen@;
            let st2 = stack@;
            let old_vis = vis;
            let old_done = done;
            lemma_sum_insert(old_done, column_offset(g, s), c, n);
            lemma_sum_insert(old_done, row_offset(g, s), c, n);
            vis = Set::new(|i: int| old_vis.contains(i) || (0 <= i < n && sn2[i] && !sn[i]));
            done = old_done.insert(c);
            assert(column_offset(g, s)(c) == dx);
            assert(row_offset(g, s)(c) == dy);
            assert forall|t: int| 0 <= t < st1.len() implies st2[t] == st1[t] by {
                assert(st2.subrange(0, st1.len() as int)[t] == st1[t]);
            }
            assert forall|i: int| 0 <= i < n implies (#[trigger] seen@[i] <==> (seen0[i]
                || vis.contains(i))) by {
                if sn[i] {
                    assert(sn2[i]);
                }
            }
            assert forall|i: int| #[trigger] vis.contains(i) implies 0 <= i < n && !seen0[i]
                && connected(*wd, s, i) by {
                if !old_vis.contains(i) {
                    assert(sn2[i] && !sn[i]);
                    assert(adjacent(g, c, i));
                    lemma_connected_extend(*wd, s, c, i);
                }
            }
            assert forall|t: int| 0 <= t < stack@.len() implies {
                &&& (#[trigger] stack@[t]).0 < g.w
                &&& stack@[t].1 < g.h
                &&& vis.contains(cell_of(g, stack@[t]))
                &&& !done.contains(cell_of(g, stack@[t]))
            } by {
                if t < st1.len() {
                    assert(st1[t] == st[t]);
                    assert(cell_of(g, st[t]) != cell_of(g, st[st.len() - 1]));
                } else {
                    lemma_coords(g, st2[t].0 as int, st2[t].1 as int);
                    let e = cell_of(g, st2[t]);
                    assert(!sn[e] && sn2[e]);
                    assert(!old_vis.contains(e));
                }
            }
            assert forall|t1: int, t2: int| 0 <= t1 < t2 < stack@.len() implies cell_of(
                g,
                #[trigger] stack@[t1],
            ) != cell_of(g, #[trigger] stack@[t2]) by {
                if t2 < st1.len() {
                    assert(st1[t1] == st[t1] && st1[t2] == st[t2]);
                } else if t1 < st1.len() {
                    assert(st1[t1] == st[t1]);
                    lemma_coords(g, st[t1].0 as int, st[t1].1 as int);
                    assert(sn[cell_of(g, st[t1])]);
                    assert(!sn[cell_of(g, st2[t2])]);
                }
            }
            assert forall|i: int| #[trigger] vis.contains(i) implies done.contains(i) || exists|
                t: int,
            |
                0 <= t < stack@.len() && #[trigger] cell_of(g, stack@[t]) == i by {
                if old_vis.contains(i) {
                    if !old_done.contains(i) {
                        let t = choose|t: int|
                            0 <= t < st.len() && #[trigger] cell_of(g, st[t]) == i;
                        if t < st1.len() {
                            assert(st2[t] == st1[t]);
                            assert(cell_of(g, stack@[t]) == i);
                        }
                    }
                } else {
                    assert(sn2[i] && !sn[i]);
                }
            }
            assert forall|i: int| 0 <= i < n && seen0[i] implies #[trigger] closed_at(
                *wd,
                seen@,
                i,
            ) by {
                lemma_closed_at_grows(*wd, sn, sn2, i);
            }
            assert forall|i: int| #[trigger] done.contains(i) implies closed_at(*wd, seen@, i) by {
                if i != c {
                    lemma_closed_at_grows(*wd, sn, sn2, i);
                }
            }
            lemma_count_bounds(vis, n);
            lemma_count_grows(old_vis, vis, n);
            if st2.len() > st1.len() {
                let e = cell_of(g, st2[st1.len() as int]);
                lemma_coords(g, st2[st1.len() as int].0 as int, st2[st1.len() as int].1 as int);
                assert(!old_vis.contains(e));
                assert(vis.contains(e));
                lemma_sum_insert(old_vis, counting(), e, n);
                lemma_count_grows(old_vis.insert(e), vis, n);
            } else {
                assert(vis =~= old_vis);
            }
        }
    }
    proof {
        let fin = seen@;
        assert forall|i: int| #[trigger] vis.contains(i) implies done.contains(i) by {
            if !done.contains(i) {
                let t = choose|t: int| 0 <= t < stack@.len() && #[trigger] cell_of(g, stack@[t]) == i;
            }
        }
        assert(all_closed(*wd, fin)) by {
            assert forall|i: int| 0 <= i < fin.len() && fin[i] implies #[trigger] closed_at(
                *wd,
                fin,
                i,
            ) by {
                if !seen0[i] {
                    assert(vis.contains(i));
                    assert(done.contains(i));
                }
            }
        }
        assert forall|i: int| 0 <= i < n implies (#[trigger] fin[i] <==> (seen0[i] || connected(
            *wd,
            s,
            i,
        ))) by {
            if connected(*wd, s, i) && !seen0[i] {
                assert(fin[s]);
                lemma_connected_stays(*wd, fin, s, i);
            }
            if connected(*wd, s, i) && seen0[i] {
                lemma_connected_symmetric(*wd, s, i);
                lemma_connected_stays(*wd, seen0, i, s);
            }
        }
        assert forall|i: int| 0 <= i < n implies (done.contains(i) <==> component(
            *wd,
            s,
        ).contains(i)) by {
            if connected(*wd, s, i) {
                assert(fin[i]);
                if seen0[i] {
                    lemma_connected_symmetric(*wd, s, i);
                    lemma_connected_stays(*wd, seen0, i, s);
                }
                assert(vis.contains(i));
            }
        }
        lemma_sum_agree(done, component(*wd, s), counting(), n);
        lemma_sum_agree(done, component(*wd, s), column_offset(g, s), n);
        lemma_sum_agree(done, component(*wd, s), row_offset(g, s), n);
    }
    (size, sum_dx, sum_dy)
}

/// Connected clusters of live cells, 8-connected, on the torus, in the order
/// of their first cell, keeping those whose size is in
/// [`MIN_SIZE`]`..=`[`MAX_SIZE`].
///
/// Each is reported by its first cell in row-major order, its size, and the
/// sums of its cells' offsets from that first cell taken the short way round
/// the torus, so that a cluster straddling the seam has a sensible centroid
/// instead of one in the middle of the world.
pub fn components(wd: &World) -> (r: Vec<Component>)
    requires
        wd.well_formed(),
    ensures
        forall|k: int|
            0 <= k < r@.len() ==> describes(*wd, #[trigger] r@[k]) && kept(r@[k].size as int),
        forall|k1: int, k2: int|
            0 <= k1 < k2 < r@.len() ==> (#[trigger] r@[k1]).root(wd.geom) < (
            #[trigger] r@[k2]).root(wd.geom),
        forall|s: int|
            #[trigger] is_root(*wd, s) && kept(component_size(*wd, s)) ==> exists|k: int|
                0 <= k < r@.len() && #[trigger] r@[k].root(wd.geom) == s,
{
    let ghost g = wd.geom;
    let n = wd.geom.cells();
    let mut seen: Vec<bool> = Vec::new();
    while seen.len() < n
        invariant
            seen@.len() <= n,
            forall|i: int| 0 <= i < seen@.len() ==> !#[trigger] seen@[i],
        decreases n - seen@.len(),
    {
        seen.push(false);
    }
    let mut stack: Vec<(usize, usize)> = Vec::new();
    let mut out: Vec<Component> = Vec::new();
    let mut start: usize = 0;
    while start < n
        invariant
            wd.well_formed(),
            g == wd.geom,
            n == g.cells_spec(),
            start <= n,
            seen@.len() == n,
            stack@.len() == 0,
            all_closed(*wd, seen@),
            forall|i: int|
                0 <= i < n && #[trigger] seen@[i] ==> exists|j: int|
                    0 <= j < start && #[trigger] connected(*wd, j, i),
            forall|j: int| 0 <= j < start && #[trigger] occupied(*wd, j) ==> seen@[j],
            forall|k: int|
                0 <= k < out@.len() ==> describes(*wd, #[trigger] out@[k]) && kept(
                    out@[k].size as int,
                ) && out@[k].root(g) < start,
            forall|k1: int, k2: int|
                0 <= k1 < k2 < out@.len() ==> (#[trigger] out@[k1]).root(g) < (
                #[trigger] out@[k2]).root(g),
            forall|s: int|
                0 <= s < start && #[trigger] is_root(*wd, s) && kept(component_size(*wd, s))
                    ==> exists|k: int| 0 <= k < out@.len() && #[trigger] out@[k].root(g) == s,
        decreases n - start,
    {
        proof {
            lemma_split(g, start as int);
        }
        let x0 = start % wd.geom.w;
        let y0 = start / wd.geom.w;
        proof {
            lemma_coords(g, x0 as int, y0 as int);
            assert(g.idx_spec(x0 as int, y0 as int) == start);
        }
        let ghost before = seen@;
        let ghost out0 = out@;
        if !seen[start] && live_at(wd, x0, y0) {
            proof {
                assert forall|j: int| 0 <= j < start implies !#[trigger] connected(
                    *wd,
                    j,
                    start as int,
                ) by {
                    if connected(*wd, j, start as int) {
                        lemma_connected_ends(*wd, j, start as int);
                        lemma_connected_stays(*wd, before, j, start as int);
                    }
                }
                assert(is_root(*wd, start as int));
            }
            let (size, sum_dx, sum_dy) = flood(wd, x0, y0, &mut seen, &mut stack);
            if MIN_SIZE <= size && size <= MAX_SIZE {
                out.push(Component { x0, y0, size, sum_dx, sum_dy });
                proof {
                    assert(out@[out@.len() - 1].root(g) == start);
                    assert forall|k: int| 0 <= k < out@.len() implies describes(
                        *wd,
                        #[trigger] out@[k],
                    ) && kept(out@[k].size as int) && out@[k].root(g) < start + 1 by {
                        if k < out0.len() {
                            assert(out@[k] == out0[k]);
                        }
                    }
                }
            }
            proof {
                assert forall|i: int| 0 <= i < n && #[trigger] seen@[i] implies exists|j: int|
                    0 <= j < start + 1 && #[trigger] connected(*wd, j, i) by {
                    if !before[i] {
                        assert(connected(*wd, start as int, i));
                    }
                }
                assert(seen@[start as int]) by {
                    lemma_connected_refl(*wd, start as int);
                }
            }
        } else {
            proof {
                if is_root(*wd, start as int) {
                    assert(occupied(*wd, start as int));
                    assert(before[start as int]);
                    let j = choose|j: int| 0 <= j < start && #[trigger] connected(*wd, j, start as int);
                }
            }
        }
        proof {
            assert forall|s: int|
                0 <= s < start + 1 && #[trigger] is_root(*wd, s) && kept(
                    component_size(*wd, s),
                ) implies exists|k: int|
                0 <= k < out@.len() && #[trigger] out@[k].root(g) == s by {
                if s < start {
                    let k = choose|k: int| 0 <= k < out0.len() && #[trigger] out0[k].root(g) == s;
                    assert(out@[k] == out0[k]);
                } else {
                    assert(out@[out@.len() - 1].root(g) == s);
                }
            }
            assert forall|k1: int, k2: int| 0 <= k1 < k2 < out@.len() implies (
            #[trigger] out@[k1]).root(g) < (#[trigger] out@[k2]).root(g) by {
                if k2 < out0.len() {
                    assert(out@[k1] == out0[k1] && out@[k2] == out0[k2]);
                } else {
                    assert(out@[k1] == out0[k1]);
                }
            }
        }
        start = start + 1;
    }
    proof {
        assert forall|s: int| #[trigger] is_root(*wd, s) && kept(component_size(*wd, s)) implies exists|
            k: int,
        |
            0 <= k < out@.len() && #[trigger] out@[k].root(g) == s by {
            assert(0 <= s < n);
        }
    }
    out
}

} // verus!
