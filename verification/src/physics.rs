//! The cost of the laws, in units that do not depend on the machine.
//!
//! The laws themselves are density bands over floating-point occupancies and
//! run in the program around this library. What they cost is counted here, in
//! integers, because those counters — unlike wall time — are reproducible and
//! so are the honest basis for any claim about cost.

use vstd::prelude::*;
use crate::space::World;

verus! {

/// What one step cost, in units that do not depend on the machine.
#[derive(Clone, Copy, Debug, Default, PartialEq, Eq, Structural)]
pub struct Work {
    /// Cells updated at full fidelity.
    pub cell_updates: u64,
    /// Blocks updated as a single density.
    pub block_updates: u64,
    /// Neighbour samples taken. The dominant real cost.
    pub neighbor_visits: u64,
    /// Cells written by an observation forcing a region into existence.
    pub cells_rendered: u64,
}

impl Work {
    /// Adds another step's counters to these, counter by counter.
    pub fn add(&mut self, o: Work)
        requires
            old(self).cell_updates + o.cell_updates <= u64::MAX,
            old(self).block_updates + o.block_updates <= u64::MAX,
            old(self).neighbor_visits + o.neighbor_visits <= u64::MAX,
            old(self).cells_rendered + o.cells_rendered <= u64::MAX,
        ensures
            final(self).cell_updates == old(self).cell_updates + o.cell_updates,
            final(self).block_updates == old(self).block_updates + o.block_updates,
            final(self).neighbor_visits == old(self).neighbor_visits + o.neighbor_visits,
            final(self).cells_rendered == old(self).cells_rendered + o.cells_rendered,
    {
        self.cell_updates += o.cell_updates;
        self.block_updates += o.block_updates;
        self.neighbor_visits += o.neighbor_visits;
        self.cells_rendered += o.cells_rendered;
    }
}

/// Neighbour samples one cell takes at `radius`: its square neighbourhood,
/// itself excluded.
pub open spec fn visits_per_cell(radius: int) -> int {
    (2 * radius + 1) * (2 * radius + 1) - 1
}

/// Neighbour visits block `b` charges for one substep: a resolved block pays
/// per cell, an unresolved one reads its eight neighbouring blocks once.
pub open spec fn block_visits(w: World, radius: int, b: int) -> int {
    if w.resolved@[b] {
        w.geom.block_cells_spec(b) * visits_per_cell(radius)
    } else {
        8
    }
}

/// Neighbour visits the first `n` blocks charge for one substep.
pub open spec fn visits_in(w: World, radius: int, n: nat) -> int
    decreases n,
{
    if n == 0 {
        0
    } else {
        visits_in(w, radius, (n - 1) as nat) + block_visits(w, radius, n - 1)
    }
}

/// Unresolved blocks among the first `n`.
pub open spec fn unresolved_in(w: World, n: nat) -> int
    decreases n,
{
    if n == 0 {
        0
    } else {
        unresolved_in(w, (n - 1) as nat) + if w.resolved@[n - 1] {
            0int
        } else {
            1int
        }
    }
}

/// Indices of the unresolved blocks among the first `n`.
pub open spec fn unresolved_blocks(w: World, n: int) -> Set<int> {
    Set::new(|b: int| 0 <= b < n && !w.resolved@[b])
}

/// Law: the count of unresolved blocks is the number of block indices whose
/// block is unresolved, however resolved and unresolved blocks are mixed.
pub proof fn lemma_unresolved_count_is_the_unresolved_set(w: World, n: nat)
    ensures
        unresolved_blocks(w, n as int).finite(),
        unresolved_in(w, n) == unresolved_blocks(w, n as int).len(),
    decreases n,
{
    if n == 0 {
        assert(unresolved_blocks(w, 0) =~= Set::<int>::empty());
    } else {
        let m = (n - 1) as nat;
        lemma_unresolved_count_is_the_unresolved_set(w, m);
        let prev = unresolved_blocks(w, m as int);
        if w.resolved@[m as int] {
            assert(unresolved_blocks(w, n as int) =~= prev);
        } else {
            assert(unresolved_blocks(w, n as int) =~= prev.insert(m as int));
            assert(!prev.contains(m as int));
        }
    }
}

/// Whether one substep's counters fit in 64 bits.
pub open spec fn substep_countable(w: World, radius: int) -> bool {
    &&& (2 * radius + 1) * (2 * radius + 1) <= u64::MAX
    &&& visits_in(w, radius, w.geom.blocks_spec() as nat) <= u64::MAX
}

proof fn lemma_visits_grow(w: World, radius: int, m: nat, n: nat)
    requires
        w.well_formed(),
        radius >= 0,
        m <= n <= w.geom.blocks_spec(),
    ensures
        0 <= visits_in(w, radius, m) <= visits_in(w, radius, n),
        0 <= unresolved_in(w, m) <= unresolved_in(w, n) <= n,
    decreases n,
{
    if n > 0 {
        crate::space::lemma_block_in_range(w.geom, n - 1);
        assert(visits_per_cell(radius) >= 0) by (nonlinear_arith)
            requires
                radius >= 0,
        ;
        assert(block_visits(w, radius, n - 1) >= 0) by (nonlinear_arith)
            requires
                w.geom.block_cells_spec(n - 1) >= 1,
                visits_per_cell(radius) >= 0,
        ;
        if m < n {
            lemma_visits_grow(w, radius, m, (n - 1) as nat);
        } else {
            lemma_visits_grow(w, radius, (n - 1) as nat, (n - 1) as nat);
        }
    }
}

/// What one substep of the laws costs a world, counted without running it:
/// every resolved block updates each of its cells and samples each cell's
/// neighbourhood; every unresolved block updates once, from its eight
/// neighbouring blocks. Nothing is rendered by a substep.
///
/// `None` exactly when a counter would not fit in 64 bits.
pub fn substep_work(w: &World, radius: usize) -> (r: Option<Work>)
    requires
        w.well_formed(),
    ensures
        r is Some <==> substep_countable(*w, radius as int),
        r matches Some(k) ==> {
            &&& k.cell_updates == w.resolved_cells_in(w.geom.blocks_spec() as nat)
            &&& k.block_updates == unresolved_in(*w, w.geom.blocks_spec() as nat)
            &&& k.block_updates == unresolved_blocks(*w, w.geom.blocks_spec()).len()
            &&& k.neighbor_visits == visits_in(*w, radius as int, w.geom.blocks_spec() as nat)
            &&& k.cells_rendered == 0
        },
{
    let r64 = radius as u64;
    let side = match r64.checked_mul(2) {
        Some(d) => match d.checked_add(1) {
            Some(x) => x,
            None => {
                proof {
                    assert((2 * radius + 1) * (2 * radius + 1) > u64::MAX) by (nonlinear_arith)
                        requires
                            2 * radius + 1 > u64::MAX,
                    ;
                }
                return None;
            },
        },
        None => {
            proof {
                assert((2 * radius + 1) * (2 * radius + 1) > u64::MAX) by (nonlinear_arith)
                    requires
                        2 * radius > u64::MAX,
                ;
            }
            return None;
        },
    };
    let square = match side.checked_mul(side) {
        Some(q) => q,
        None => {
            return None;
        },
    };
    proof {
        assert(square >= 1) by (nonlinear_arith)
            requires
                square == side * side,
                side >= 1,
        ;
    }
    let per_cell = square - 1;
    let n = w.geom.blocks();
    proof {
        crate::space::lemma_blocks_fit(w.geom);
        crate::space::lemma_blocks_tile_the_grid(w.geom);
        crate::space::lemma_resolved_cells_bounded(*w, n as nat);
        lemma_visits_grow(*w, radius as int, 0, n as nat);
    }
    let mut cells: u64 = 0;
    let mut blocks: u64 = 0;
    let mut visits: u64 = 0;
    let mut b: usize = 0;
    while b < n
        invariant
            w.well_formed(),
            n == w.geom.blocks_spec(),
            per_cell == visits_per_cell(radius as int),
            (2 * radius + 1) * (2 * radius + 1) <= u64::MAX,
            w.resolved_cells_in(n as nat) <= w.geom.cells_spec(),
            w.geom.cells_spec() <= usize::MAX,
            b <= n,
            cells == w.resolved_cells_in(b as nat),
            blocks == unresolved_in(*w, b as nat),
            visits == visits_in(*w, radius as int, b as nat),
        decreases n - b,
    {
        proof {
            crate::space::lemma_block_in_range(w.geom, b as int);
            crate::space::lemma_resolved_cells_monotone(*w, (b + 1) as nat, n as nat);
            lemma_visits_grow(*w, radius as int, (b + 1) as nat, n as nat);
            lemma_visits_grow(*w, radius as int, b as nat, (b + 1) as nat);
        }
        if w.resolved[b] {
            let c = w.geom.block_cells(b) as u64;
            let v = match c.checked_mul(per_cell) {
                Some(v) => v,
                None => {
                    proof {
                        lemma_visits_grow(*w, radius as int, (b + 1) as nat, n as nat);
                    }
                    return None;
                },
            };
            visits = match visits.checked_add(v) {
                Some(t) => t,
                None => {
                    proof {
                        lemma_visits_grow(*w, radius as int, (b + 1) as nat, n as nat);
                    }
                    return None;
                },
            };
            cells = cells + c;
        } else {
            visits = match visits.checked_add(8) {
                Some(t) => t,
                None => {
                    proof {
                        lemma_visits_grow(*w, radius as int, (b + 1) as nat, n as nat);
                    }
                    return None;
                },
            };
            blocks = blocks + 1;
        }
        b = b + 1;
    }
    proof {
        lemma_unresolved_count_is_the_unresolved_set(*w, n as nat);
    }
    Some(Work { cell_updates: cells, block_updates: blocks, neighbor_visits: visits, cells_rendered: 0 })
}

} // verus!
