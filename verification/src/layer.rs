//! Theory 2: nesting. Layers hosting layers, under the degradation rule.
//!
//! **Layer 0** is the host machine's process. The universes a chain builds are
//! layers 1, 2, 3 and down, each running on a strict fraction of its host's
//! budget. A child's world is sized to fit its budget, so degradation shows up
//! as a shrinking universe rather than as an abstract number.
//!
//! This file holds the cost arithmetic that sizing rests on. [`predict_work`]
//! counts, exactly, the neighbour visits a layer will spend; and
//! [`fit_spec_among`] picks the largest world that fits a budget. Because cost
//! is not monotonic in world size, that pick is a scan, and it is proved to
//! return the largest candidate that fits rather than merely one that does.

use vstd::prelude::*;
use crate::budget::Budget;
use crate::constraints::{Constraints, Params, Resolved, resolve, every_limit};
use crate::observer::Probe;
use crate::physics::{block_visits, visits_in, visits_per_cell};
use crate::space::{Geometry, World, ceil_div};

verus! {

/// The size of one universe.
///
/// Ticks are held constant down the chain: a child is given less *space*, not
/// less history.
#[derive(Clone, Copy, Debug, PartialEq, Eq, Structural)]
pub struct LayerSpec {
    pub width: usize,
    pub height: usize,
    pub ticks: u64,
}

impl LayerSpec {
    pub fn cells(&self) -> (r: usize)
        requires
            self.width * self.height <= usize::MAX,
        ensures
            r == self.width * self.height,
    {
        self.width * self.height
    }
}

/// One universe in the chain, before it has been run.
#[derive(Clone, Copy, Debug, PartialEq, Eq, Structural)]
pub struct Layer {
    /// 1 is the root simulated universe. Layer 0 is the host process.
    pub depth: usize,
    pub budget: Budget,
    pub spec: LayerSpec,
    pub predicted_work: u64,
}

/// The grid a nested layer runs on: every limit in force, so space is not
/// subdivided and blocks are the configured size.
pub open spec fn layer_geometry(spec: LayerSpec, params: Params) -> Geometry {
    Geometry {
        w: spec.width,
        h: spec.height,
        block: params.block_size,
        bw: ceil_div(spec.width as int, params.block_size as int) as usize,
        bh: ceil_div(spec.height as int, params.block_size as int) as usize,
        scale: 1,
    }
}

/// Cells in a cell's neighbourhood at the capped radius, itself excluded.
pub open spec fn neighbourhood_size(params: Params) -> int {
    (2 * params.capped_radius + 1) * (2 * params.capped_radius + 1) - 1
}

/// What block `b` costs per substep: an observed block pays per cell, an
/// unobserved one pays eight visits however large it is.
pub open spec fn block_cost(spec: LayerSpec, probe: Probe, params: Params, b: int) -> int {
    let g = layer_geometry(spec, params);
    if probe.observes(g, b) {
        g.block_cells_spec(b) * neighbourhood_size(params)
    } else {
        8
    }
}

/// What the first `n` blocks cost per substep.
pub open spec fn blocks_cost(spec: LayerSpec, probe: Probe, params: Params, n: nat) -> int
    decreases n,
{
    if n == 0 {
        0
    } else {
        blocks_cost(spec, probe, params, (n - 1) as nat) + block_cost(spec, probe, params, n - 1)
    }
}

/// What one substep over the whole world costs.
pub open spec fn substep_cost(spec: LayerSpec, probe: Probe, params: Params) -> int {
    blocks_cost(spec, probe, params, layer_geometry(spec, params).blocks_spec() as nat)
}

/// Neighbour visits a layer of this size, observed by this probe, spends.
pub open spec fn predicted_work(spec: LayerSpec, probe: Probe, params: Params) -> int {
    substep_cost(spec, probe, params) * spec.ticks * resolve(every_limit(), params).substeps
}

/// Whether the prediction can be counted in machine integers.
pub open spec fn prediction_fits(spec: LayerSpec, probe: Probe, params: Params) -> bool {
    let g = layer_geometry(spec, params);
    &&& params.block_size >= 1
    &&& (2 * params.capped_radius + 1) * (2 * params.capped_radius + 1) <= usize::MAX
    &&& g.fits_usize()
    &&& probe.fits(g)
    &&& substep_cost(spec, probe, params) <= u64::MAX
    &&& predicted_work(spec, probe, params) <= u64::MAX
}

proof fn lemma_costs_nonnegative(spec: LayerSpec, probe: Probe, params: Params, n: nat)
    requires
        params.block_size >= 1,
        layer_geometry(spec, params).fits_usize(),
        n <= layer_geometry(spec, params).blocks_spec(),
    ensures
        0 <= blocks_cost(spec, probe, params, n),
    decreases n,
{
    if n > 0 {
        lemma_costs_nonnegative(spec, probe, params, (n - 1) as nat);
        let g = layer_geometry(spec, params);
        crate::space::lemma_block_in_range(g, n - 1);
        assert(neighbourhood_size(params) >= 0) by (nonlinear_arith)
            requires
                params.capped_radius >= 0,
        ;
        assert(g.block_cells_spec(n - 1) * neighbourhood_size(params) >= 0) by (nonlinear_arith)
            requires
                g.block_cells_spec(n - 1) >= 1,
                neighbourhood_size(params) >= 0,
        ;
    }
}

proof fn lemma_costs_grow(spec: LayerSpec, probe: Probe, params: Params, m: nat, n: nat)
    requires
        params.block_size >= 1,
        layer_geometry(spec, params).fits_usize(),
        m <= n <= layer_geometry(spec, params).blocks_spec(),
    ensures
        blocks_cost(spec, probe, params, m) <= blocks_cost(spec, probe, params, n),
    decreases n,
{
    if m < n {
        lemma_costs_grow(spec, probe, params, m, (n - 1) as nat);
        lemma_costs_nonnegative(spec, probe, params, n);
        let g = layer_geometry(spec, params);
        crate::space::lemma_block_in_range(g, n - 1);
        assert(neighbourhood_size(params) >= 0) by (nonlinear_arith)
            requires
                params.capped_radius >= 0,
        ;
        assert(g.block_cells_spec(n - 1) * neighbourhood_size(params) >= 0) by (nonlinear_arith)
            requires
                g.block_cells_spec(n - 1) >= 1,
                neighbourhood_size(params) >= 0,
        ;
    }
}

/// Neighbour visits one layer will spend, computed exactly.
///
/// Not an estimate. It lays out the same geometry the run will use and counts
/// what each block costs: an observed block pays per cell, an unobserved one
/// pays eight visits however large it is. That is the whole of lazy
/// rendering's arithmetic, which is what makes the number usable as a budget
/// check rather than a guess.
///
/// The probe must be the one that layer will run with, not the root's.
pub fn predict_work(spec: &LayerSpec, probe: &Probe, params: &Params) -> (r: u64)
    requires
        prediction_fits(*spec, *probe, *params),
    ensures
        r == predicted_work(*spec, *probe, *params),
{
    let res = Resolved::new(&Constraints::all_on(), params);
    let geom = Geometry::new(spec.width, spec.height, res.subdivision, res.block_size);
    assert(geom == layer_geometry(*spec, *params));
    proof {
        let x = 2 * params.capped_radius + 1;
        assert(x <= x * x) by (nonlinear_arith)
            requires
                x >= 1,
        ;
    }
    let side = 2 * res.radius + 1;
    let neighbours = (side * side - 1) as u64;
    let observed = probe.observed_blocks(&geom);
    proof {
        crate::space::lemma_blocks_tile_the_grid(geom);
        crate::space::lemma_blocks_fit(geom);
    }
    let n = geom.blocks();
    let mut per_substep: u64 = 0;
    let mut b: usize = 0;
    while b < n
        invariant
            geom == layer_geometry(*spec, *params),
            prediction_fits(*spec, *probe, *params),
            n == geom.blocks_spec(),
            observed.len() == n,
            forall|k: int| 0 <= k < n ==> observed[k] == probe.observes(geom, k),
            neighbours == neighbourhood_size(*params),
            b <= n,
            per_substep == blocks_cost(*spec, *probe, *params, b as nat),
        decreases n - b,
    {
        proof {
            crate::space::lemma_block_in_range(geom, b as int);
            lemma_costs_grow(*spec, *probe, *params, (b + 1) as nat, n as nat);
            lemma_costs_nonnegative(*spec, *probe, *params, b as nat);
        }
        let cost = if observed[b] {
            geom.block_cells(b) as u64 * neighbours
        } else {
            8
        };
        per_substep = per_substep + cost;
        b = b + 1;
    }
    proof {
        assert(res.substeps == 1);
        lemma_costs_nonnegative(*spec, *probe, *params, n as nat);
        assert(per_substep * spec.ticks <= u64::MAX) by (nonlinear_arith)
            requires
                per_substep * spec.ticks * 1 <= u64::MAX,
        ;
    }
    per_substep * spec.ticks * res.substeps as u64
}

/// Whether [`predict_work`] can count this layer's cost in machine integers.
///
/// Counting would overflow only for worlds or budgets far beyond anything a
/// machine could run; a caller tests this first and refuses such a layer.
pub fn prediction_is_countable(spec: &LayerSpec, probe: &Probe, params: &Params) -> (r: bool)
    ensures
        r == prediction_fits(*spec, *probe, *params),
{
    if params.block_size == 0 {
        return false;
    }
    let side = match params.capped_radius.checked_mul(2) {
        Some(d) => match d.checked_add(1) {
            Some(x) => x,
            None => {
                proof {
                    lemma_square_at_least(2 * params.capped_radius + 1);
                }
                return false;
            },
        },
        None => {
            proof {
                lemma_square_at_least(2 * params.capped_radius + 1);
            }
            return false;
        },
    };
    if side.checked_mul(side).is_none() {
        return false;
    }
    let ghost g = layer_geometry(*spec, *params);
    if spec.width.checked_mul(spec.height).is_none() || spec.width.checked_add(params.block_size).is_none()
        || spec.height.checked_add(params.block_size).is_none() || spec.width.checked_add(
        spec.width,
    ).is_none() || spec.height.checked_add(spec.height).is_none() {
        return false;
    }
    let geom = Geometry::new(spec.width, spec.height, 1, params.block_size);
    assert(geom == layer_geometry(*spec, *params));
    proof {
        assert(probe.x * 1 == probe.x && probe.y * 1 == probe.y && probe.width * 1 == probe.width
            && probe.height * 1 == probe.height);
        assert(side * side >= 1) by (nonlinear_arith)
            requires
                side >= 1,
        ;
    }
    let neighbours = (side * side - 1) as u64;
    let observed = probe.observed_blocks(&geom);
    proof {
        crate::space::lemma_blocks_fit(geom);
    }
    let n = geom.blocks();
    let mut per_substep: u64 = 0;
    let mut b: usize = 0;
    while b < n
        invariant
            geom == layer_geometry(*spec, *params),
            geom.well_formed(),
            geom.fits_usize(),
            params.block_size >= 1,
            n == geom.blocks_spec(),
            observed.len() == n,
            forall|k: int| 0 <= k < n ==> observed[k] == probe.observes(geom, k),
            neighbours == neighbourhood_size(*params),
            b <= n,
            per_substep == blocks_cost(*spec, *probe, *params, b as nat),
        decreases n - b,
    {
        proof {
            crate::space::lemma_block_in_range(geom, b as int);
            lemma_costs_grow(*spec, *probe, *params, (b + 1) as nat, n as nat);
            lemma_costs_nonnegative(*spec, *probe, *params, b as nat);
        }
        let cost = if observed[b] {
            match (geom.block_cells(b) as u64).checked_mul(neighbours) {
                Some(c) => c,
                None => {
                    proof {
                        lemma_costs_grow(*spec, *probe, *params, (b + 1) as nat, n as nat);
                    }
                    return false;
                },
            }
        } else {
            8
        };
        match per_substep.checked_add(cost) {
            Some(sum) => {
                per_substep = sum;
            },
            None => {
                proof {
                    lemma_costs_grow(*spec, *probe, *params, (b + 1) as nat, n as nat);
                }
                return false;
            },
        }
        b = b + 1;
    }
    proof {
        assert(resolve(every_limit(), *params).substeps == 1);
        assert(per_substep * spec.ticks * 1 == per_substep * spec.ticks);
    }
    per_substep.checked_mul(spec.ticks).is_some()
}

proof fn lemma_square_at_least(x: int)
    requires
        x >= 0,
    ensures
        x <= x * x || x == 0,
{
    if x >= 1 {
        assert(x <= x * x) by (nonlinear_arith)
            requires
                x >= 1,
        ;
    }
}

/// Whether a candidate world is wide enough to be a world and cheap enough
/// for the budget.
pub open spec fn fits_budget(
    c: (LayerSpec, Probe),
    budget: Budget,
    viable_edge: usize,
    params: Params,
) -> bool {
    c.0.width >= viable_edge && predicted_work(c.0, c.1, params) <= budget.work
}

/// The first of the candidate worlds, each paired with the probe it would run
/// with, that fits the budget.
///
/// Candidates are offered largest first. Cost is not monotonic in world size —
/// a probe landing on block boundaries resolves far fewer blocks than one of
/// the same area straddling them — so walking down from an area estimate
/// would step straight past larger worlds that also fit. Scanning every
/// candidate in order and taking the first that fits is the only way to mean
/// "largest" here. A candidate is costed only when the scan reaches it.
///
/// `Ok(None)` when no candidate fits: the second way a chain can end.
/// `Err(i)` when the scan reaches a wide enough candidate `i` whose cost is
/// too large to count in machine integers before any candidate fitted.
pub fn fit_spec_among(
    candidates: &Vec<(LayerSpec, Probe)>,
    budget: Budget,
    viable_edge: usize,
    params: &Params,
) -> (r: Result<Option<LayerSpec>, usize>)
    ensures
        match r {
            Ok(Some(s)) => exists|i: int|
                0 <= i < candidates.len() && (#[trigger] candidates[i]).0 == s && fits_budget(
                    candidates[i],
                    budget,
                    viable_edge,
                    *params,
                ) && forall|j: int| 0 <= j < i ==> !fits_budget(candidates[j], budget, viable_edge, *params),
            Ok(None) => forall|i: int|
                0 <= i < candidates.len() ==> !fits_budget(#[trigger] candidates[i], budget, viable_edge, *params),
            Err(i) => {
                &&& 0 <= i < candidates.len()
                &&& candidates[i as int].0.width >= viable_edge
                &&& !prediction_fits(candidates[i as int].0, candidates[i as int].1, *params)
                &&& forall|j: int| 0 <= j < i ==> !fits_budget(#[trigger] candidates[j], budget, viable_edge, *params)
            },
        },
{
    let mut i: usize = 0;
    while i < candidates.len()
        invariant
            i <= candidates.len(),
            forall|j: int| 0 <= j < i ==> !fits_budget(#[trigger] candidates[j], budget, viable_edge, *params),
        decreases candidates.len() - i,
    {
        let (spec, probe) = candidates[i];
        if spec.width >= viable_edge {
            if !prediction_is_countable(&spec, &probe, params) {
                return Err(i);
            }
            if predict_work(&spec, &probe, params) <= budget.work {
                return Ok(Some(spec));
            }
        }
        i = i + 1;
    }
    Ok(None)
}

/// Law: offered candidates from the largest down, the scan returns the
/// largest world that fits. Every candidate taller than its pick is either
/// too narrow or too expensive.
pub proof fn lemma_fit_is_the_largest_that_fits(
    candidates: Seq<(LayerSpec, Probe)>,
    budget: Budget,
    viable_edge: usize,
    params: Params,
    i: int,
)
    requires
        forall|a: int, b: int|
            0 <= a < b < candidates.len() ==> candidates[a].0.height > candidates[b].0.height,
        0 <= i < candidates.len(),
        fits_budget(candidates[i], budget, viable_edge, params),
        forall|j: int| 0 <= j < i ==> !fits_budget(candidates[j], budget, viable_edge, params),
    ensures
        forall|j: int|
            0 <= j < candidates.len() && candidates[j].0.height > candidates[i].0.height
                ==> !fits_budget(candidates[j], budget, viable_edge, params),
{
    assert forall|j: int|
        0 <= j < candidates.len() && candidates[j].0.height > candidates[i].0.height implies !fits_budget(
        candidates[j],
        budget,
        viable_edge,
        params,
    ) by {
        if j > i {
            assert(candidates[i].0.height > candidates[j].0.height);
        }
    }
}

/// Law: the prediction is exact, not an estimate. Once a layer's world has
/// exactly the blocks its probe observes resolved, one substep of the laws
/// charges it exactly the predicted cost per substep, and its whole run
/// (one substep per tick, every limit in force) exactly the predicted work.
pub proof fn lemma_prediction_is_what_the_laws_charge(
    spec: LayerSpec,
    probe: Probe,
    params: Params,
    w: World,
)
    requires
        w.well_formed(),
        w.geom == layer_geometry(spec, params),
        forall|b: int|
            0 <= b < w.geom.blocks_spec() ==> w.resolved@[b] == probe.observes(w.geom, b),
    ensures
        visits_in(w, resolve(every_limit(), params).radius as int, w.geom.blocks_spec() as nat)
            == substep_cost(spec, probe, params),
        predicted_work(spec, probe, params) == visits_in(
            w,
            resolve(every_limit(), params).radius as int,
            w.geom.blocks_spec() as nat,
        ) * spec.ticks,
{
    assert(resolve(every_limit(), params).radius == params.capped_radius);
    lemma_charges_agree(spec, probe, params, w, w.geom.blocks_spec() as nat);
    assert(resolve(every_limit(), params).substeps == 1);
}

proof fn lemma_charges_agree(spec: LayerSpec, probe: Probe, params: Params, w: World, n: nat)
    requires
        w.geom == layer_geometry(spec, params),
        n <= w.geom.blocks_spec(),
        forall|b: int|
            0 <= b < w.geom.blocks_spec() ==> w.resolved@[b] == probe.observes(w.geom, b),
    ensures
        visits_in(w, params.capped_radius as int, n) == blocks_cost(spec, probe, params, n),
    decreases n,
{
    if n > 0 {
        lemma_charges_agree(spec, probe, params, w, (n - 1) as nat);
        assert(visits_per_cell(params.capped_radius as int) == neighbourhood_size(params));
        assert(block_visits(w, params.capped_radius as int, n - 1) == block_cost(
            spec,
            probe,
            params,
            n - 1,
        ));
    }
}

} // verus!
