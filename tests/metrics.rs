use concurrency::metrics::Metrics;

#[test]
fn counters_start_at_zero_and_move_by_one() {
    let mut m = Metrics::new();
    assert_eq!(m.get("req.page.1"), 0);
    m.inc("req.page.1").unwrap();
    m.inc("req.page.1").unwrap();
    m.dec("req.page.2").unwrap();
    m.inc("call.thread.worker.0").unwrap();
    m.dec("req.page.1").unwrap();
    assert_eq!(m.get("req.page.1"), 1);
    assert_eq!(m.get("req.page.2"), -1);
    assert_eq!(m.get("call.thread.worker.0"), 1);
}

#[test]
fn snapshot_lists_each_counter_once() {
    let mut m = Metrics::default();
    assert!(m.snapshot().is_empty());
    m.inc("a").unwrap();
    m.inc("b").unwrap();
    m.inc("a").unwrap();
    assert_eq!(
        m.snapshot(),
        vec![("a".to_string(), 2), ("b".to_string(), 1)]
    );
}

