use custom_dmq::metrics::BrokerMetrics;

#[test]
fn counters_increment() {
    let mut m = BrokerMetrics::new();
    m.record_produce(10);
    m.record_fetch(5, 1);
    m.record_commit();
    m.record_request_latency(3);
    let out = m.render_prometheus();
    assert!(out.contains("dmq_produce_total 1"));
    assert!(out.contains("dmq_fetch_records 1"));
    assert!(out.contains("dmq_request_latency_ms_bucket"));
}

#[test]
fn latency_lands_in_every_bucket_at_or_above_it() {
    let mut m = BrokerMetrics::new();
    m.record_request_latency(30);
    m.record_error();
    let out = m.render_prometheus();
    assert!(out.contains("dmq_request_latency_ms_bucket{le=\"25\"} 0\n"));
    assert!(out.contains("dmq_request_latency_ms_bucket{le=\"50\"} 1\n"));
    assert!(out.contains("dmq_request_latency_ms_bucket{le=\"+Inf\"} 1\n"));
    assert!(out.contains("dmq_request_latency_ms_sum 30\n"));
    assert!(out.contains("dmq_request_errors 1\n"));
    assert!(out.starts_with("# HELP dmq_produce_total Total produce requests\n# TYPE dmq_produce_total counter\ndmq_produce_total 0\n"));
}
