use the_universe::constraints::{Constraints, Params, Resolved};

#[test]
fn labels_are_stable() {
    assert_eq!(Constraints::all_on().label(), "all_on");
    assert_eq!(Constraints::all_off().label(), "all_off");
}

#[test]
fn singles_turn_on_exactly_one() {
    let s = Constraints::singles();
    assert_eq!(s.len(), 4);
    for c in s {
        let n = [
            c.discrete_space,
            c.discrete_time,
            c.speed_cap,
            c.lazy_rendering,
        ]
        .iter()
        .filter(|b| **b)
        .count();
        assert_eq!(n, 1, "{c:?}");
    }
}

#[test]
fn constraints_lower_the_work_dials() {
    let p = Params::default();
    let on = Resolved::new(&Constraints::all_on(), &p);
    let off = Resolved::new(&Constraints::all_off(), &p);
    assert!(on.subdivision <= off.subdivision);
    assert!(on.substeps <= off.substeps);
    assert!(on.radius <= off.radius);
}

#[test]
fn single_labels_name_their_limit() {
    let labels: Vec<String> = Constraints::singles().iter().map(|c| c.label()).collect();
    assert_eq!(labels, vec!["space", "time", "speed", "lazy"]);
}

#[test]
fn mixed_labels_join_with_plus() {
    let c = Constraints {
        discrete_space: true,
        discrete_time: false,
        speed_cap: true,
        lazy_rendering: true,
    };
    assert_eq!(c.label(), "space+speed+lazy");
    let d = Constraints {
        discrete_space: false,
        discrete_time: true,
        speed_cap: true,
        lazy_rendering: false,
    };
    assert_eq!(d.label(), "time+speed");
}

#[test]
fn resolving_picks_each_end_of_each_dial() {
    let p = Params {
        subdivision: 3,
        substeps: 4,
        capped_radius: 1,
        uncapped_radius: 5,
        block_size: 16,
    };
    let off = Resolved::new(&Constraints::all_off(), &p);
    assert_eq!(
        (off.subdivision, off.substeps, off.radius, off.block_size, off.lazy),
        (3, 4, 5, 48, false)
    );
    let on = Resolved::new(&Constraints::all_on(), &p);
    assert_eq!(
        (on.subdivision, on.substeps, on.radius, on.block_size, on.lazy),
        (1, 1, 1, 16, true)
    );
}

#[test]
fn refining_time_alone_raises_influence_speed() {
    // Influence per tick is radius * substeps / subdivision base cells.
    let p = Params::default();
    let base = Resolved::new(&Constraints::all_on(), &p);
    let mut finer_time = Constraints::all_on();
    finer_time.discrete_time = false;
    let ft = Resolved::new(&finer_time, &p);
    assert!(ft.radius * ft.substeps * base.subdivision > base.radius * base.substeps * ft.subdivision);

    // Refining space alongside it pays the debt back.
    let mut both = finer_time;
    both.discrete_space = false;
    let b = Resolved::new(&both, &p);
    assert!(b.radius * b.substeps * ft.subdivision <= ft.radius * ft.substeps * b.subdivision);
}

#[test]
fn default_params_are_the_documented_dials() {
    let p = Params::default();
    assert_eq!(
        (p.subdivision, p.substeps, p.capped_radius, p.uncapped_radius, p.block_size),
        (2, 2, 1, 3, 16)
    );
}
