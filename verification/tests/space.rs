use the_universe::space::{upsample, Geometry, World};

fn geom() -> Geometry {
    Geometry::new(32, 32, 1, 8)
}

#[test]
fn geometry_partitions_the_grid() {
    let g = geom();
    assert_eq!(g.cells(), 1024);
    assert_eq!(g.blocks(), 16);
    let total: usize = (0..g.blocks()).map(|b| g.block_cells(b)).sum();
    assert_eq!(total, g.cells(), "blocks must tile the grid exactly");
}

#[test]
fn ragged_blocks_still_tile() {
    // 30 does not divide by 8; the partition must still cover every cell
    // exactly once.
    let g = Geometry::new(30, 30, 1, 8);
    let total: usize = (0..g.blocks()).map(|b| g.block_cells(b)).sum();
    assert_eq!(total, g.cells());
}

#[test]
fn block_of_agrees_with_block_bounds() {
    let g = Geometry::new(30, 30, 1, 8);
    for y in 0..g.h {
        for x in 0..g.w {
            let b = g.block_of(x, y);
            let (x0, y0, x1, y1) = g.block_bounds(b);
            assert!(x >= x0 && x < x1 && y >= y0 && y < y1);
        }
    }
}

#[test]
fn wrap_makes_a_torus() {
    let g = geom();
    assert_eq!(g.wrap_x(-1), g.w - 1);
    assert_eq!(g.wrap_y(-1), g.h - 1);
    assert_eq!(g.wrap_x(g.w as isize), 0);
}

#[test]
fn ragged_edges_are_the_small_blocks() {
    let g = Geometry::new(30, 20, 1, 8);
    assert_eq!((g.bw, g.bh), (4, 3));
    assert_eq!(g.block_bounds(0), (0, 0, 8, 8));
    assert_eq!(g.block_bounds(3), (24, 0, 30, 8));
    assert_eq!(g.block_bounds(11), (24, 16, 30, 20));
    assert_eq!(g.block_cells(11), 6 * 4);
}

#[test]
fn subdivision_scales_the_grid() {
    let g = Geometry::new(32, 16, 2, 16);
    assert_eq!((g.w, g.h, g.bw, g.bh, g.scale), (64, 32, 4, 2, 2));
    assert_eq!(g.idx(3, 2), 2 * 64 + 3);
}

#[test]
fn every_cell_has_exactly_one_block() {
    let g = Geometry::new(21, 13, 1, 5);
    let mut seen = vec![0u32; g.cells()];
    for b in 0..g.blocks() {
        let (x0, y0, x1, y1) = g.block_bounds(b);
        for y in y0..y1 {
            for x in x0..x1 {
                seen[g.idx(x, y)] += 1;
                assert_eq!(g.block_of(x, y), b);
            }
        }
    }
    assert!(seen.iter().all(|n| *n == 1));
}

#[test]
fn wrap_is_euclidean() {
    let g = Geometry::new(10, 7, 1, 4);
    assert_eq!(g.wrap_x(-11), 9);
    assert_eq!(g.wrap_x(23), 3);
    assert_eq!(g.wrap_y(-7), 0);
    assert_eq!(g.wrap_y(-8), 6);
}

fn world(g: Geometry) -> World {
    World {
        geom: g,
        cells: (0..g.cells()).map(|i| (i % 3 == 0) as u8).collect(),
        coarse: vec![0.5f64.to_bits(); g.blocks()],
        resolved: vec![true; g.blocks()],
    }
}

#[test]
fn live_state_bytes_drop_when_blocks_collapse() {
    let mut w = world(geom());
    let full = w.live_state_bytes();
    assert_eq!(full, 1024 + 16 * 9);
    for b in 0..w.geom.blocks() {
        w.resolved[b] = false;
    }
    assert!(w.live_state_bytes() < full);
    assert_eq!(w.live_state_bytes(), 16 * 9);
    assert_eq!(w.allocated_bytes(), world(geom()).allocated_bytes());
    assert_eq!(w.allocated_bytes(), 1024 + 16 * 8 + 16);
}

#[test]
fn live_state_never_exceeds_allocation() {
    let mut w = world(Geometry::new(30, 18, 1, 8));
    for b in 0..w.geom.blocks() {
        w.resolved[b] = b % 2 == 0;
        assert!(w.live_state_bytes() <= w.allocated_bytes());
    }
}

#[test]
fn the_fingerprint_notices_a_changed_state() {
    let a = world(geom());
    let mut b = a.clone();
    assert_eq!(a.fingerprint(), b.fingerprint());

    b.cells[0] ^= 1;
    assert_ne!(a.fingerprint(), b.fingerprint(), "one cell must move it");

    let mut c = a.clone();
    c.coarse[0] = (f64::from_bits(c.coarse[0]) + 1e-12).to_bits();
    assert_ne!(a.fingerprint(), c.fingerprint(), "densities fold in by bit pattern");

    let mut d = a.clone();
    d.resolved[0] = !d.resolved[0];
    assert_ne!(a.fingerprint(), d.fingerprint(), "fidelity is part of state");
}

#[test]
fn the_fingerprint_depends_on_the_geometry() {
    let a = world(Geometry::new(16, 8, 1, 8));
    let b = World {
        geom: Geometry::new(8, 16, 1, 8),
        ..a.clone()
    };
    assert_ne!(a.fingerprint(), b.fingerprint());
}

#[test]
fn upsampling_copies_each_base_cell_into_a_square() {
    let g = Geometry::new(3, 2, 2, 4);
    let base: Vec<u8> = vec![1, 0, 1, 0, 1, 1];
    let fine = upsample(&g, &base);
    assert_eq!(fine.len(), 6 * 4);
    for y in 0..g.h {
        for x in 0..g.w {
            assert_eq!(fine[g.idx(x, y)], base[(y / 2) * 3 + x / 2], "cell ({x}, {y})");
        }
    }
    assert_eq!(&fine[0..6], &[1, 1, 0, 0, 1, 1]);
    assert_eq!(&fine[18..24], &[0, 0, 1, 1, 1, 1]);
}

#[test]
fn upsampling_at_scale_one_is_the_identity() {
    let g = Geometry::new(4, 3, 1, 2);
    let base: Vec<u8> = (0..12).map(|i| (i % 2) as u8).collect();
    assert_eq!(upsample(&g, &base), base);
}

#[test]
fn a_block_counts_its_live_cells() {
    let g = Geometry::new(10, 10, 1, 4);
    let mut w = World {
        geom: g,
        cells: vec![0; g.cells()],
        coarse: vec![0f64.to_bits(); g.blocks()],
        resolved: vec![true; g.blocks()],
    };
    for &(x, y) in &[(0, 0), (3, 3), (4, 0), (9, 9), (8, 8), (9, 8)] {
        w.cells[g.idx(x, y)] = 1;
    }
    assert_eq!(w.live_in_block(0), 2);
    assert_eq!(w.live_in_block(1), 1);
    assert_eq!(w.live_in_block(2), 0);
    assert_eq!(w.live_in_block(8), 3, "the ragged corner block is 2x2");
    assert_eq!(g.block_cells(8), 4);
}
