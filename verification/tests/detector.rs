use the_universe::detector::{Gaze, Inhabitant, measure_reach, nearest_live_before};
use the_universe::space::{Geometry, World};

fn empty_world() -> World {
    let g = Geometry::new(32, 32, 1, 8);
    World {
        geom: g,
        cells: vec![0; g.cells()],
        coarse: vec![0f64.to_bits(); g.blocks()],
        resolved: vec![true; g.blocks()],
    }
}

#[test]
fn gaze_labels() {
    assert_eq!(Gaze::Rendering.label(), "looking renders");
    assert_eq!(Gaze::Passive.label(), "reads without rendering");
}

#[test]
fn an_inhabitant_is_a_probe_over_its_home() {
    let who = Inhabitant {
        x: 4,
        y: 5,
        width: 6,
        height: 7,
    };
    let p = who.as_probe();
    assert_eq!((p.x, p.y, p.width, p.height), (4, 5, 6, 7));
    let d = Inhabitant::default();
    assert_eq!((d.x, d.y, d.width, d.height), (0, 0, 64, 64));
}

#[test]
fn home_wraps_onto_the_torus() {
    let who = Inhabitant {
        x: 30,
        y: 31,
        width: 3,
        height: 2,
    };
    let cells = who.cells(&Geometry::new(32, 32, 1, 8));
    assert_eq!(cells, vec![(30, 31), (31, 31), (0, 31), (30, 0), (31, 0), (0, 0)]);
}

#[test]
fn the_nearest_ancestor_is_found_ring_by_ring() {
    let mut w = empty_world();
    w.cells[w.geom.idx(13, 10)] = 1;
    assert_eq!(nearest_live_before(&w, 10, 10), Some(3));
    w.cells[w.geom.idx(9, 11)] = 1;
    assert_eq!(nearest_live_before(&w, 10, 10), Some(1));
}

#[test]
fn the_search_gives_up_at_its_reach() {
    let mut w = empty_world();
    w.cells[w.geom.idx(10, 19)] = 1;
    assert_eq!(nearest_live_before(&w, 10, 10), None, "nine rings away");
    w.cells[w.geom.idx(10, 18)] = 1;
    assert_eq!(nearest_live_before(&w, 10, 10), Some(8));
}

#[test]
fn the_search_wraps_across_the_seam() {
    let mut w = empty_world();
    w.cells[w.geom.idx(31, 0)] = 1;
    assert_eq!(nearest_live_before(&w, 1, 1), Some(2));
}

#[test]
fn coarse_ground_makes_a_sample_incomplete() {
    let mut w = empty_world();
    w.cells[w.geom.idx(12, 4)] = 1;
    // (4, 4) sits in block 0; ring 4 reaches x = 8, in block 1.
    assert_eq!(nearest_live_before(&w, 4, 4), Some(8));
    w.resolved[1] = false;
    assert_eq!(nearest_live_before(&w, 4, 4), None);
    let mut v = empty_world();
    v.cells[v.geom.idx(6, 4)] = 1;
    v.resolved[1] = false;
    assert_eq!(nearest_live_before(&v, 4, 4), Some(2), "found before reaching coarse ground");
}

#[test]
fn reach_is_the_furthest_birth_from_its_cause() {
    let mut before = empty_world();
    before.cells[before.geom.idx(5, 5)] = 1;
    let mut after = empty_world();
    after.cells[after.geom.idx(6, 5)] = 1;
    after.cells[after.geom.idx(8, 5)] = 1;
    let home: Vec<(usize, usize)> = (0..16).flat_map(|y| (0..16).map(move |x| (x, y))).collect();
    assert_eq!(measure_reach(&before, &after, &home), Some(3));
    // A survivor is not a birth.
    let mut still = empty_world();
    still.cells[still.geom.idx(5, 5)] = 1;
    assert_eq!(measure_reach(&before, &still, &home), None);
}

#[test]
fn births_in_coarse_ground_are_not_measured() {
    let mut before = empty_world();
    before.cells[before.geom.idx(5, 5)] = 1;
    let mut after = empty_world();
    after.cells[after.geom.idx(6, 5)] = 1;
    after.resolved[0] = false;
    let home = vec![(6, 5)];
    assert_eq!(measure_reach(&before, &after, &home), None);
}
