use interactive_graphs::relation::Relation;

#[test]
fn multiplicity_counts_committed_changes() {
    let mut r = Relation::new();
    r.insert((1, 2));
    r.insert((1, 2));
    r.advance_to(5);
    r.remove((1, 2));
    assert_eq!(r.multiplicity((1, 2), 10), 0);
    r.flush();
    assert_eq!(r.time(), 5);
    assert_eq!(r.multiplicity((1, 2), 4), 2);
    assert_eq!(r.multiplicity((1, 2), 5), 1);
    assert_eq!(r.multiplicity((2, 1), 5), 0);
}

#[test]
fn replay_order_does_not_change_multiplicity() {
    let mut a = Relation::new();
    a.insert((0, 1));
    a.insert((3, 3));
    a.advance_to(2);
    a.remove((0, 1));
    a.insert((0, 1));
    a.flush();
    let mut b = Relation::new();
    b.insert((3, 3));
    b.insert((0, 1));
    b.advance_to(2);
    b.insert((0, 1));
    b.remove((0, 1));
    b.flush();
    for t in 0..4u64 {
        for x in [(0usize, 1usize), (3, 3), (1, 0)] {
            assert_eq!(a.multiplicity(x, t), b.multiplicity(x, t));
        }
    }
    assert_eq!(a.multiplicity((0, 1), 2), 1);
}

use interactive_graphs::relation::{Arrangement, Update};

fn upd(key: usize, value: usize, diff: i64) -> Update {
    Update { key, value, time: 0, diff }
}

#[test]
fn arrangement_indexes_net_multiplicities() {
    let mut a = Arrangement::new();
    a.apply(upd(1, 10, 1));
    a.apply(upd(1, 11, 1));
    a.apply(upd(1, 10, 1));
    a.apply(upd(2, 10, 1));
    let mut r = a.lookup(1);
    r.sort();
    assert_eq!(r, vec![(10, 2), (11, 1)]);
    assert_eq!(a.lookup(2), vec![(10, 1)]);
    assert!(a.lookup(3).is_empty());
}

#[test]
fn arrangement_drops_cancelled_values() {
    let mut a = Arrangement::new();
    a.apply(upd(4, 5, 1));
    a.apply(upd(4, 6, -1));
    a.apply(upd(4, 5, -1));
    assert_eq!(a.lookup(4), vec![(6, -1)]);
}
