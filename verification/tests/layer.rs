use the_universe::budget::Budget;
use the_universe::constraints::Params;
use the_universe::layer::{Layer, LayerSpec, fit_spec_among, predict_work, prediction_is_countable};
use the_universe::physics::substep_work;
use the_universe::space::{Geometry, World};
use the_universe::observer::Probe;

fn params() -> Params {
    Params {
        block_size: 8,
        ..Params::default()
    }
}

fn spec(edge: usize) -> LayerSpec {
    LayerSpec {
        width: edge,
        height: edge,
        ticks: 30,
    }
}

/// The probe the nesting tests use, covering the middle quarter of a 64x64
/// root, rescaled by hand to a square world of the given edge.
fn probe_for(edge: usize) -> Probe {
    let s = edge as f64 / 64.0;
    Probe {
        x: ((16.0 * s).round() as usize).min(edge - 1),
        y: ((16.0 * s).round() as usize).min(edge - 1),
        width: ((32.0 * s).round() as usize).clamp(1, edge),
        height: ((32.0 * s).round() as usize).clamp(1, edge),
    }
}

fn work_of(edge: usize) -> u64 {
    predict_work(&spec(edge), &probe_for(edge), &params())
}

#[test]
fn cells_is_width_times_height() {
    assert_eq!(
        LayerSpec {
            width: 48,
            height: 21,
            ticks: 1
        }
        .cells(),
        1008
    );
}

#[test]
fn the_prediction_counts_each_block_exactly() {
    // 64x64 world, 8x8 blocks, probe over the middle 32x32: 16 blocks observed
    // at 64 cells x 8 neighbours, the other 48 at 8 visits, 30 ticks.
    assert_eq!(work_of(64), (16 * 64 * 8 + 48 * 8) * 30);
}

#[test]
fn a_smaller_world_is_predicted_to_cost_less_when_alignment_is_held_fixed() {
    assert!(work_of(32) < work_of(64));
}

#[test]
fn cost_is_not_monotonic_in_world_size() {
    // A probe that straddles block boundaries drags more blocks into full
    // resolution than a larger, aligned one.
    let bigger_is_cheaper = (8..=64).any(|small| ((small + 1)..=64).any(|big| work_of(big) < work_of(small)));
    assert!(bigger_is_cheaper);
}

#[test]
fn fit_spec_returns_the_largest_world_that_fits() {
    let candidates: Vec<(LayerSpec, Probe)> = (8..=64).rev().map(|e| (spec(e), probe_for(e))).collect();
    for budget in [200_000u64, 2_000_000, 9_000_000] {
        let Ok(Some(got)) = fit_spec_among(&candidates, Budget::new(budget), 8, &params()) else {
            continue;
        };
        assert!(work_of(got.height) <= budget);
        for edge in (got.height + 1)..=64 {
            assert!(
                work_of(edge) > budget,
                "{edge}x{edge} also fits budget {budget}, but the scan chose {}",
                got.height
            );
        }
    }
}

#[test]
fn nothing_fits_a_budget_too_poor_for_any_world() {
    let candidates: Vec<(LayerSpec, Probe)> = (8..=64).rev().map(|e| (spec(e), probe_for(e))).collect();
    assert_eq!(fit_spec_among(&candidates, Budget::new(10), 8, &params()), Ok(None));
}

#[test]
fn a_world_narrower_than_viable_is_never_chosen() {
    let candidates = vec![(spec(6), probe_for(6)), (spec(4), probe_for(4))];
    assert_eq!(fit_spec_among(&candidates, Budget::new(u64::MAX), 8, &params()), Ok(None));
}

#[test]
fn the_scan_costs_a_candidate_only_when_it_reaches_it() {
    let absurd = LayerSpec {
        width: 64,
        height: 64,
        ticks: u64::MAX,
    };
    // An uncountable candidate after the first that fits is never costed.
    let after = vec![(spec(64), probe_for(64)), (absurd, probe_for(64))];
    assert_eq!(fit_spec_among(&after, Budget::new(u64::MAX), 8, &params()), Ok(Some(spec(64))));
    // One reached before anything fits is reported by its position.
    let before = vec![(spec(64), probe_for(64)), (absurd, probe_for(64)), (spec(32), probe_for(32))];
    assert_eq!(fit_spec_among(&before, Budget::new(10), 8, &params()), Err(1));
}

#[test]
fn ordinary_layers_are_countable() {
    assert!(prediction_is_countable(&spec(64), &probe_for(64), &params()));
    let absurd = LayerSpec {
        width: 64,
        height: 64,
        ticks: u64::MAX,
    };
    assert!(!prediction_is_countable(&absurd, &probe_for(64), &params()));
    let no_blocks = Params {
        block_size: 0,
        ..params()
    };
    assert!(!prediction_is_countable(&spec(64), &probe_for(64), &no_blocks));
}

#[test]
fn a_layer_records_its_plan() {
    let l = Layer {
        depth: 1,
        budget: Budget::new(1_000),
        spec: spec(16),
        predicted_work: work_of(16),
    };
    assert_eq!(l.spec.cells(), 256);
    assert_eq!(l.budget.work, 1_000);
}

#[test]
fn what_a_substep_charges_is_the_prediction() {
    // A world whose resolved blocks are exactly those the probe observes is
    // charged, per substep and over its run, what was predicted.
    for edge in [16usize, 24, 48, 64] {
        let g = Geometry::new(edge, edge, 1, params().block_size);
        let observed = probe_for(edge).observed_blocks(&g);
        let w = World {
            geom: g,
            cells: vec![0; g.cells()],
            coarse: vec![0f64.to_bits(); g.blocks()],
            resolved: observed,
        };
        let per_substep = substep_work(&w, params().capped_radius).expect("countable");
        assert_eq!(per_substep.neighbor_visits * spec(edge).ticks, work_of(edge), "edge {edge}");
    }
}
