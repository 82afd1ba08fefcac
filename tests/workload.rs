use interactive_graphs::schedule::{Request, Target};
use interactive_graphs::workload::{worker_edge_count, worker_state, Workload};

#[test]
fn workload_needs_nodes() {
    assert!(Workload::new(0, 0).is_none());
    assert!(Workload::new(5, 0).is_some());
}

#[test]
fn random_pairs_stay_below_node_count() {
    let mut w = Workload::new(3, 1).unwrap();
    for _ in 0..200 {
        let (a, b) = w.random_edge();
        assert!(a < 3 && b < 3);
        let (c, d) = w.random_query();
        assert!(c < 3 && d < 3);
    }
}

#[test]
fn random_pairs_vary() {
    let mut w = Workload::new(1000, 0).unwrap();
    let first = w.random_edge();
    let mut differs = false;
    for _ in 0..20 {
        if w.random_edge() != first {
            differs = true;
        }
    }
    assert!(differs);
}

#[test]
fn streams_are_reproducible_per_worker() {
    let mut a = Workload::new(1000, 2).unwrap();
    let mut b = Workload::new(1000, 2).unwrap();
    for _ in 0..10 {
        assert_eq!(a.random_edge(), b.random_edge());
        assert_eq!(a.random_query(), b.random_query());
    }
}

#[test]
fn removal_stream_replays_insertion_stream() {
    let mut a = Workload::new(1000, 0).unwrap();
    let mut b = Workload::new(1000, 0).unwrap();
    let req = Request { counter: 2, time_ns: 7, target: Target::Graph };
    let m = a.mutation(req);
    assert_eq!(m.target, Target::Graph);
    assert_eq!(m.time_ns, 7);
    assert_eq!(m.insert, m.remove);
    assert_eq!(m.insert, b.random_edge());
    let q = a.mutation(Request { counter: 3, time_ns: 9, target: Target::Query });
    assert_eq!(q.target, Target::Query);
    assert_eq!(q.insert, b.random_query());
}

#[test]
fn edge_shares_cover_all_edges() {
    assert_eq!(worker_edge_count(10, 3, 0), 4);
    assert_eq!(worker_edge_count(10, 3, 1), 3);
    assert_eq!(worker_edge_count(10, 3, 2), 3);
    let total: u64 = (0..7).map(|i| worker_edge_count(100, 7, i)).sum();
    assert_eq!(total, 100);
}

#[test]
fn state_shares_by_residue() {
    assert_eq!(worker_state(10, 3, 1), vec![(1, 1), (4, 4), (7, 7)]);
    assert_eq!(worker_state(2, 3, 2), Vec::<(usize, usize)>::new());
}
