use the_universe::config::{check_dials, check_extent, decimal_text, ReportCfg};
use the_universe::constraints::Params;
use the_universe::observer::Probe;

fn probe() -> Probe {
    Probe { x: 0, y: 0, width: 8, height: 8 }
}

#[test]
fn numbers_are_written_as_format_would_write_them() {
    for n in [0usize, 7, 10, 42, 100, 65_535, usize::MAX] {
        assert_eq!(decimal_text(n), format!("{n}"));
    }
}

#[test]
fn the_default_report_grid_is_sixteen() {
    let r = ReportCfg::default();
    assert_eq!(r.macro_grid, 16);
    assert_eq!(r.out_dir, "out");
}

#[test]
fn a_world_without_extent_is_refused() {
    assert_eq!(
        check_extent(0, 10, 5),
        Err("world.width and world.height must be greater than 0".to_string())
    );
    assert_eq!(
        check_extent(10, 0, 5),
        Err("world.width and world.height must be greater than 0".to_string())
    );
    assert_eq!(check_extent(10, 10, 0), Err("world.ticks must be greater than 0".to_string()));
    assert_eq!(check_extent(10, 10, 1), Ok(()));
}

#[test]
fn default_dials_pass() {
    assert_eq!(check_dials(&Params::default(), 16, &probe(), 64, 64), Ok(()));
}

#[test]
fn each_bad_dial_is_named() {
    let bad = |f: &dyn Fn(&mut Params)| {
        let mut p = Params::default();
        f(&mut p);
        check_dials(&p, 16, &probe(), 64, 64).unwrap_err()
    };
    assert_eq!(
        bad(&|p| p.subdivision = 0),
        "params.subdivision and params.substeps must be at least 1"
    );
    assert_eq!(
        bad(&|p| p.substeps = 0),
        "params.subdivision and params.substeps must be at least 1"
    );
    assert_eq!(bad(&|p| p.block_size = 0), "params.block_size must be at least 1");
    assert_eq!(bad(&|p| p.capped_radius = 0), "influence radii must be at least 1 cell");
    assert_eq!(bad(&|p| p.uncapped_radius = 0), "influence radii must be at least 1 cell");
    assert_eq!(
        bad(&|p| {
            p.capped_radius = 5;
            p.uncapped_radius = 2;
        }),
        "params.capped_radius (5) exceeds params.uncapped_radius (2): \
         the speed cap would make the universe more expensive, not less"
    );
}

#[test]
fn the_report_grid_and_probe_are_checked_after_the_dials() {
    let p = Params::default();
    assert_eq!(
        check_dials(&p, 0, &probe(), 64, 64),
        Err("report.macro_grid must be at least 1".to_string())
    );
    let empty = Probe { x: 0, y: 0, width: 0, height: 8 };
    assert!(check_dials(&p, 16, &empty, 64, 64)
        .unwrap_err()
        .starts_with("observer.width and observer.height must be greater than 0"));
    let outside = Probe { x: 64, y: 0, width: 8, height: 8 };
    assert_eq!(
        check_dials(&p, 16, &outside, 64, 64),
        Err("observer origin lies outside the world".to_string())
    );
}

#[test]
fn zero_ticks_is_refused() {
    assert!(check_extent(32, 32, 0).is_err());
}

#[test]
fn probe_outside_the_world_is_refused() {
    let far = Probe { x: 999, y: 0, width: 8, height: 8 };
    assert!(check_dials(&Params::default(), 16, &far, 32, 32).is_err());
}

#[test]
fn an_inverted_speed_cap_is_refused() {
    let p = Params {
        capped_radius: 5,
        uncapped_radius: 2,
        subdivision: 2,
        substeps: 2,
        block_size: 16,
    };
    match check_dials(&p, 16, &probe(), 32, 32) {
        Err(m) => assert!(m.contains("more expensive")),
        other => panic!("expected a validation error, got {other:?}"),
    }
}
