use interactive_graphs::schedule::{pace_target, ConfigError, Request, Schedule, Target, CATCH_UP_NS};

#[test]
fn pace_target_rounds_down_to_window() {
    assert_eq!(pace_target(5_000_000, 1), 4 * 1_048_576);
    assert_eq!(pace_target(1_048_575, 1), 0);
    assert_eq!(pace_target(1_048_576, 1), 1_048_576);
}

#[test]
fn pace_target_caps_catch_up_at_one_second() {
    assert_eq!(pace_target(10_000_000_000, 4_194_304), 4_194_304 + 1_000_000_000);
    assert_eq!(pace_target(u64::MAX, u64::MAX - 5), (u64::MAX / 1_048_576) * 1_048_576);
    let mut inserted = 1u64;
    for elapsed in [3_000_000_000u64, 9_000_000_000, 9_100_000_000, 50_000_000_000] {
        let t = pace_target(elapsed, inserted);
        assert!(t <= inserted + CATCH_UP_NS);
        if t > inserted {
            inserted = t;
        }
    }
}

#[test]
fn new_schedule_fields() {
    let s = Schedule::new(1, 4, 2000, 10).unwrap();
    assert_eq!(s.ns_per_request, 1_000_000);
    assert_eq!(s.request_counter, 5);
    assert_eq!(s.ack_counter, 5);
    assert_eq!(s.ack_target, 20_000);
    assert_eq!(s.inserted_ns, 1);
}

#[test]
fn new_schedule_errors() {
    assert_eq!(Schedule::new(0, 0, 2000, 10).err(), Some(ConfigError::NoPeers));
    assert_eq!(Schedule::new(2, 2, 2000, 10).err(), Some(ConfigError::WorkerOutOfRange));
    assert_eq!(Schedule::new(0, 1, 1, 10).err(), Some(ConfigError::RateTooLow));
    assert_eq!(Schedule::new(0, 1, 3_000_000_000, 10).err(), Some(ConfigError::RateTooHigh));
    assert_eq!(Schedule::new(0, 1 << 62, 2000, 10).err(), Some(ConfigError::TooManyPeers));
    assert_eq!(Schedule::new(0, 1, 2000, u64::MAX).err(), Some(ConfigError::GoalTooLarge));
}

#[test]
fn pace_issues_requests_before_target() {
    let mut s = Schedule::new(0, 1, 2000, 10).unwrap();
    let r = s.pace(5_000_000);
    assert_eq!(
        r,
        vec![
            Request { counter: 1, time_ns: 1_000_000, target: Target::Query },
            Request { counter: 2, time_ns: 2_000_000, target: Target::Graph },
            Request { counter: 3, time_ns: 3_000_000, target: Target::Query },
            Request { counter: 4, time_ns: 4_000_000, target: Target::Graph },
        ]
    );
    assert_eq!(s.request_counter, 5);
    assert_eq!(s.inserted_ns, 4_194_304);
    assert!(s.pace(5_000_000).is_empty());
    assert_eq!(s.inserted_ns, 4_194_304);
}

#[test]
fn pace_interleaves_workers() {
    let mut s = Schedule::new(1, 2, 2000, 10).unwrap();
    let r = s.pace(8_388_608);
    let counters: Vec<u64> = r.iter().map(|q| q.counter).collect();
    assert_eq!(counters, vec![3, 5, 7]);
    let targets: Vec<Target> = r.iter().map(|q| q.target).collect();
    assert_eq!(targets, vec![Target::Query, Target::Graph, Target::Query]);
    assert_eq!(s.request_counter, 9);
}

#[test]
fn pace_never_jumps_more_than_one_second() {
    let mut s = Schedule::new(0, 1, 2000, 10).unwrap();
    let before = s.inserted_ns;
    let r = s.pace(10_000_000_000);
    assert_eq!(s.inserted_ns, before + 1_000_000_000);
    assert_eq!(r.len(), 1000);
    assert!(r.iter().all(|q| q.time_ns < s.inserted_ns));
}

#[test]
fn acknowledge_keeps_second_half() {
    let mut s = Schedule::new(0, 1, 10, 1).unwrap();
    assert_eq!(s.ack_target, 10);
    let mut s2 = Schedule::new(0, 1, 2000, 10).unwrap();
    assert_eq!(s2.acknowledge(0, 0), Vec::<u64>::new());
    assert_eq!(s2.ack_counter, 1);
    s.ns_per_request = 1_000_000;
    let r = s.acknowledge(8_500_000, 9_000_000);
    assert_eq!(r, vec![3_000_000, 2_000_000, 1_000_000]);
    assert_eq!(s.ack_counter, 9);
    assert!(!s.done());
    let r = s.acknowledge(20_000_000, 21_000_000);
    assert_eq!(r, vec![12_000_000]);
    assert_eq!(s.ack_counter, 10);
    assert!(s.done());
}
