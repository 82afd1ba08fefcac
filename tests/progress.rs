use interactive_graphs::progress::Watermark;

#[test]
fn global_watermark_is_least_local() {
    let mut w = Watermark::new(3);
    assert_eq!(w.global(), 0);
    w.observe(0, 5);
    assert_eq!(w.global(), 0);
    w.observe(1, 7);
    w.observe(2, 3);
    assert_eq!(w.global(), 3);
    w.observe(2, 10);
    assert_eq!(w.global(), 5);
}

#[test]
fn global_watermark_never_decreases() {
    let mut w = Watermark::new(2);
    let mut last = w.global();
    for (worker, t) in [(0usize, 4u64), (1, 9), (0, 2), (1, 1), (0, 12), (1, 11), (0, 0)] {
        w.observe(worker, t);
        let g = w.global();
        assert!(g >= last);
        last = g;
    }
    assert_eq!(last, 11);
}
