use the_universe::observer::Probe;
use the_universe::space::Geometry;

fn geom() -> Geometry {
    Geometry::new(32, 32, 1, 8)
}

fn probe() -> Probe {
    Probe {
        x: 0,
        y: 0,
        width: 8,
        height: 8,
    }
}

#[test]
fn probe_covers_one_block_of_sixteen() {
    let obs = probe().observed_blocks(&geom());
    assert_eq!(obs.iter().filter(|b| **b).count(), 1);
    assert!(obs[0]);
}

#[test]
fn probe_scales_with_subdivision() {
    // The same probe must cover the same physical region at finer space.
    let coarse = probe().observed_blocks(&Geometry::new(32, 32, 1, 8));
    let fine = probe().observed_blocks(&Geometry::new(32, 32, 2, 16));
    assert_eq!(
        coarse.iter().filter(|b| **b).count(),
        fine.iter().filter(|b| **b).count()
    );
}

#[test]
fn probe_can_straddle_the_seam() {
    let p = Probe {
        x: 30,
        y: 0,
        width: 4,
        height: 8,
    };
    let obs = p.observed_blocks(&geom());
    assert!(obs[3], "should touch the right-hand block");
    assert!(obs[0], "and wrap onto the left-hand one");
}

#[test]
fn refined_space_sees_exactly_the_same_blocks() {
    let p = Probe {
        x: 5,
        y: 27,
        width: 13,
        height: 9,
    };
    for s in 1..4 {
        assert_eq!(
            p.observed_blocks(&Geometry::new(30, 30, 1, 8)),
            p.observed_blocks(&Geometry::new(30, 30, s, 8 * s)),
            "subdivision {s}"
        );
    }
}

#[test]
fn a_probe_as_wide_as_the_world_sees_every_column() {
    let p = Probe {
        x: 7,
        y: 0,
        width: 32,
        height: 1,
    };
    let obs = p.observed_blocks(&geom());
    assert_eq!(obs, (0..16).map(|b| b < 4).collect::<Vec<_>>());
}

#[test]
fn a_probe_that_observes_nothing_renders_nothing() {
    let p = Probe {
        x: 3,
        y: 3,
        width: 0,
        height: 8,
    };
    assert!(p.observed_blocks(&geom()).iter().all(|b| !*b));
}

#[test]
fn a_probe_ending_on_a_boundary_does_not_spill_over() {
    let p = Probe {
        x: 8,
        y: 8,
        width: 8,
        height: 8,
    };
    let obs = p.observed_blocks(&geom());
    assert_eq!(obs.iter().filter(|b| **b).count(), 1);
    assert!(obs[5]);
    let straddling = Probe {
        x: 7,
        y: 8,
        width: 8,
        height: 8,
    };
    assert_eq!(
        straddling.observed_blocks(&geom()).iter().filter(|b| **b).count(),
        2
    );
}
