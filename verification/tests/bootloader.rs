use the_universe::bootloader::boot_seed;
use the_universe::clusters::live_at;
use the_universe::pipe::Message;
use the_universe::space::{Geometry, World};

#[test]
fn nothing_crossing_means_no_child() {
    assert!(boot_seed(&[]).is_none());
}

#[test]
fn the_child_seed_depends_on_what_crossed() {
    let a = [Message {
        tick: 1,
        magnitude_bits: 0.4f64.to_bits(),
        digest: 99,
    }];
    let b = [Message {
        tick: 1,
        magnitude_bits: 0.4f64.to_bits(),
        digest: 100,
    }];
    assert_ne!(boot_seed(&a), boot_seed(&b));
    assert_eq!(boot_seed(&a), boot_seed(&a));
}

#[test]
fn every_field_of_every_message_reaches_the_seed() {
    let history: Vec<Message> = (0..5)
        .map(|t| Message {
            tick: t,
            magnitude_bits: (0.1 * t as f64).to_bits(),
            digest: 1000 + t,
        })
        .collect();
    let base = boot_seed(&history);
    for k in 0..history.len() {
        let mut h = history.clone();
        h[k].tick += 100;
        assert_ne!(boot_seed(&h), base, "tick of message {k}");
        let mut h = history.clone();
        h[k].digest ^= 1;
        assert_ne!(boot_seed(&h), base, "digest of message {k}");
        let mut h = history.clone();
        h[k].magnitude_bits += 1;
        assert_ne!(boot_seed(&h), base, "magnitude of message {k}");
    }
}

#[test]
fn the_order_of_what_crossed_matters() {
    let m = |tick| Message {
        tick,
        magnitude_bits: 0,
        digest: 7,
    };
    assert_ne!(boot_seed(&[m(1), m(2)]), boot_seed(&[m(2), m(1)]));
}

#[test]
fn only_resolved_live_cells_belong_to_structures() {
    let g = Geometry::new(16, 16, 1, 8);
    let mut w = World {
        geom: g,
        cells: vec![0; g.cells()],
        coarse: vec![0f64.to_bits(); g.blocks()],
        resolved: vec![true; g.blocks()],
    };
    w.cells[g.idx(2, 3)] = 1;
    w.cells[g.idx(12, 12)] = 1;
    w.resolved[g.block_of(12, 12)] = false;
    assert!(live_at(&w, 2, 3));
    assert!(!live_at(&w, 3, 3));
    assert!(!live_at(&w, 12, 12), "coarse ground has no cells");
}
