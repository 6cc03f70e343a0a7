use the_universe::budget::Budget;
use the_universe::config::ReportCfg;
use the_universe::physics::{substep_work, Work};
use the_universe::space::{Geometry, World};

#[test]
fn a_budget_holds_its_work() {
    assert_eq!(Budget::new(1_000).work, 1_000);
    assert!(Budget::new(10) < Budget::new(11));
}

#[test]
fn work_adds_counter_by_counter() {
    let mut w = Work {
        cell_updates: 1,
        block_updates: 2,
        neighbor_visits: 3,
        cells_rendered: 4,
    };
    w.add(Work {
        cell_updates: 10,
        block_updates: 20,
        neighbor_visits: 30,
        cells_rendered: 40,
    });
    assert_eq!(
        w,
        Work {
            cell_updates: 11,
            block_updates: 22,
            neighbor_visits: 33,
            cells_rendered: 44,
        }
    );
    let mut z = Work::default();
    z.add(Work::default());
    assert_eq!(z, Work::default());
}

#[test]
fn the_report_defaults() {
    let r = ReportCfg::default();
    assert_eq!(r.macro_grid, 16);
    assert_eq!(r.out_dir, "out");
}

fn fully_resolved(edge: usize, block: usize) -> World {
    let g = Geometry::new(edge, edge, 1, block);
    World {
        geom: g,
        cells: vec![0; g.cells()],
        coarse: vec![0f64.to_bits(); g.blocks()],
        resolved: vec![true; g.blocks()],
    }
}

#[test]
fn wider_radius_costs_more_neighbour_visits() {
    let w = fully_resolved(32, 8);
    let cheap = substep_work(&w, 1).unwrap();
    let dear = substep_work(&w, 3).unwrap();
    assert_eq!(cheap.neighbor_visits, 32 * 32 * 8);
    assert_eq!(dear.neighbor_visits, 32 * 32 * 48);
    assert_eq!(cheap.cell_updates, 32 * 32);
    assert_eq!(cheap.block_updates, 0);
    assert_eq!(cheap.cells_rendered, 0);
}

#[test]
fn unresolved_blocks_cost_one_update_not_many() {
    let mut w = fully_resolved(32, 8);
    for b in 0..w.geom.blocks() {
        w.resolved[b] = false;
    }
    let work = substep_work(&w, 1).unwrap();
    assert_eq!(work.cell_updates, 0);
    assert_eq!(work.block_updates, w.geom.blocks() as u64);
    assert_eq!(work.neighbor_visits, w.geom.blocks() as u64 * 8);
}

#[test]
fn a_radius_too_large_to_count_is_refused() {
    let w = fully_resolved(8, 8);
    assert!(substep_work(&w, usize::MAX / 2).is_none());
    assert!(substep_work(&w, 0).unwrap().neighbor_visits == 0);
}
