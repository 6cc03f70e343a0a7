use the_universe::clusters::{components, Component, MAX_SIZE, MIN_SIZE};
use the_universe::space::{Geometry, World};

fn world_with(live: &[(usize, usize)]) -> World {
    let g = Geometry::new(32, 32, 1, 16);
    let mut w = World {
        geom: g,
        cells: vec![0; g.cells()],
        coarse: vec![0f64.to_bits(); g.blocks()],
        resolved: vec![true; g.blocks()],
    };
    for &(x, y) in live {
        w.cells[g.idx(x, y)] = 1;
    }
    w
}

/// The centroid the way the program around the library takes it.
fn centroid(c: &Component, g: &Geometry) -> (f64, f64) {
    let k = c.size as f64;
    (
        (c.x0 as f64 + c.sum_dx as f64 / k).rem_euclid(g.w as f64),
        (c.y0 as f64 + c.sum_dy as f64 / k).rem_euclid(g.h as f64),
    )
}

#[test]
fn a_lone_cluster_is_found_with_its_centroid() {
    let w = world_with(&[(10, 10), (11, 10), (10, 11)]);
    let cs = components(&w);
    assert_eq!(cs.len(), 1);
    assert_eq!(cs[0].size, 3);
    assert_eq!((cs[0].x0, cs[0].y0), (10, 10));
    assert_eq!((cs[0].sum_dx, cs[0].sum_dy), (1, 1));
    let (cx, cy) = centroid(&cs[0], &w.geom);
    assert!((cx - 10.333).abs() < 0.01, "cx was {cx}");
    assert!((cy - 10.333).abs() < 0.01, "cy was {cy}");
}

#[test]
fn separate_clusters_are_not_merged() {
    let w = world_with(&[(5, 5), (6, 5), (5, 6), (20, 20), (21, 20), (20, 21)]);
    let cs = components(&w);
    assert_eq!(cs.len(), 2);
    assert_eq!((cs[0].x0, cs[0].y0), (5, 5), "clusters come in order of their first cell");
    assert_eq!((cs[1].x0, cs[1].y0), (20, 20));
}

#[test]
fn a_cluster_straddling_the_seam_has_a_sensible_centroid() {
    // Cells at x = 31, 0, 1 are adjacent on a torus. A naive mean would put
    // the centroid at x = 10.7, in the middle of empty space.
    let w = world_with(&[(31, 10), (0, 10), (1, 10)]);
    let cs = components(&w);
    assert_eq!(cs.len(), 1, "the seam must not split a cluster");
    assert_eq!((cs[0].x0, cs[0].y0), (0, 10));
    assert_eq!(cs[0].sum_dx, 0, "offsets -1 and +1 cancel");
    let (cx, _) = centroid(&cs[0], &w.geom);
    assert!(!(1.5..=30.5).contains(&cx), "centroid should sit near the seam, got {cx}");
}

#[test]
fn a_cluster_straddling_the_top_and_bottom_rows_is_one() {
    let w = world_with(&[(7, 31), (7, 0), (8, 0)]);
    let cs = components(&w);
    assert_eq!(cs.len(), 1);
    assert_eq!((cs[0].x0, cs[0].y0), (7, 0));
    assert_eq!((cs[0].sum_dx, cs[0].sum_dy), (1, -1));
}

#[test]
fn diagonal_neighbours_belong_together() {
    let w = world_with(&[(3, 3), (4, 4), (5, 5)]);
    let cs = components(&w);
    assert_eq!(cs.len(), 1);
    assert_eq!(cs[0].size, 3);
    assert_eq!((cs[0].sum_dx, cs[0].sum_dy), (3, 3));
}

#[test]
fn oversized_regions_are_not_structures() {
    let big: Vec<(usize, usize)> = (0..10).flat_map(|y| (0..10).map(move |x| (x, y))).collect();
    assert!(components(&world_with(&big)).is_empty());
}

#[test]
fn the_size_limits_are_inclusive() {
    let smallest: Vec<(usize, usize)> = (0..MIN_SIZE).map(|x| (x + 2, 2)).collect();
    assert_eq!(components(&world_with(&smallest)).len(), 1);
    let too_small: Vec<(usize, usize)> = (0..MIN_SIZE - 1).map(|x| (x + 2, 2)).collect();
    assert!(components(&world_with(&too_small)).is_empty());
    // A 5x8 rectangle is exactly MAX_SIZE cells; one more cell is a region.
    let largest: Vec<(usize, usize)> = (0..8).flat_map(|y| (0..5).map(move |x| (x + 2, y + 2))).collect();
    assert_eq!(largest.len(), MAX_SIZE);
    assert_eq!(components(&world_with(&largest))[0].size, MAX_SIZE);
    let mut too_large = largest.clone();
    too_large.push((7, 2));
    assert!(components(&world_with(&too_large)).is_empty());
}

#[test]
fn coarse_ground_holds_no_structure() {
    let mut w = world_with(&[(2, 2), (3, 2), (2, 3), (20, 20), (21, 20), (20, 21)]);
    let b = w.geom.block_of(20, 20);
    w.resolved[b] = false;
    let cs = components(&w);
    assert_eq!(cs.len(), 1);
    assert_eq!((cs[0].x0, cs[0].y0), (2, 2));
}

#[test]
fn an_empty_world_has_no_clusters() {
    assert!(components(&world_with(&[])).is_empty());
}
