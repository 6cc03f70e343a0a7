use the_universe::pipe::{fold_horizon, Message, WriteEnd};

#[test]
fn a_child_cannot_read_its_own_pipe() {
    // Enforced by the type system: `WriteEnd` exposes no way to observe
    // anything.
    let mut w = WriteEnd::new();
    w.write(Message {
        tick: 0,
        magnitude_bits: 0.5f64.to_bits(),
        digest: 1,
    });
    let r = w.seal();
    assert_eq!(r.all().len(), 1);
}

#[test]
fn what_crosses_is_what_was_written_in_order() {
    let mut w = WriteEnd::new();
    let sent: Vec<Message> = (0..6)
        .map(|t| Message {
            tick: t,
            magnitude_bits: (t as f64 / 10.0).to_bits(),
            digest: t * 31,
        })
        .collect();
    for m in &sent {
        w.write(*m);
    }
    let r = w.seal();
    assert_eq!(r.all(), &sent[..]);
}

#[test]
fn a_sealed_empty_pipe_carries_nothing() {
    assert!(WriteEnd::new().seal().all().is_empty());
}

#[test]
fn a_horizon_folds_to_its_count_of_set_bits() {
    let bits = vec![true, false, true, true, false, false];
    let (live, _) = fold_horizon(3, 3, &bits);
    assert_eq!(live, 3);
    let (none, _) = fold_horizon(3, 3, &vec![false; 9]);
    assert_eq!(none, 0);
    let (empty, _) = fold_horizon(3, 3, &Vec::new());
    assert_eq!(empty, 0);
}

#[test]
fn the_digest_depends_on_the_arrangement_not_just_the_count() {
    let a = vec![true, false, false, false];
    let b = vec![false, true, false, false];
    let (la, da) = fold_horizon(7, 2, &a);
    let (lb, db) = fold_horizon(7, 2, &b);
    assert_eq!(la, lb);
    assert_ne!(da, db, "same count, different arrangement");
    assert_eq!(fold_horizon(7, 2, &a), fold_horizon(7, 2, &a), "pure");
}

#[test]
fn the_digest_depends_on_the_tick_and_the_row_width() {
    let bits = vec![true, false, true, false];
    assert_ne!(fold_horizon(1, 2, &bits).1, fold_horizon(2, 2, &bits).1);
    assert_ne!(fold_horizon(1, 2, &bits).1, fold_horizon(1, 4, &bits).1);
}

#[test]
fn one_changed_cell_moves_the_digest() {
    let base = vec![false; 16];
    let (_, d0) = fold_horizon(0, 4, &base);
    for k in 0..16 {
        let mut b = base.clone();
        b[k] = true;
        assert_ne!(fold_horizon(0, 4, &b).1, d0, "cell {k}");
    }
}
