use bifrox_server::listener::{client_auth_enabled, metrics_bind_addr, metrics_port};
use bifrox_server::metrics::{
    forbidden_reply, metrics_reply, LatencyHistogram, MetricsCollector,
};

#[test]
fn per_topic_counters_stay_independent_and_sum_into_the_global_total() {
    let mut m = MetricsCollector::new();
    m.record_produce_topic("orders", 100, 2);
    m.record_produce_topic("payments", 50, 1);
    m.record_produce_topic("orders", 25, 1);

    assert_eq!(m.produce_bytes_total, 175);
    assert_eq!(m.produce_records_total, 4);

    let rendered = m.render_prometheus(0, 0);
    assert!(rendered.contains("bifrox_topic_produce_bytes_total{topic=\"orders\"} 125"));
    assert!(rendered.contains("bifrox_topic_produce_bytes_total{topic=\"payments\"} 50"));
}

#[test]
fn latency_histogram_buckets_are_cumulative_and_le_inf_matches_count() {
    let mut h = LatencyHistogram::default();
    h.record(3);
    h.record(30);
    h.record(3000);

    let mut out = String::new();
    h.render("test_latency_ms", "", &mut out);

    assert!(out.contains("test_latency_ms_bucket{le=\"1\"} 0"));
    assert!(out.contains("test_latency_ms_bucket{le=\"5\"} 1"));
    assert!(out.contains("test_latency_ms_bucket{le=\"50\"} 2"));
    assert!(out.contains("test_latency_ms_bucket{le=\"+Inf\"} 3"));
    assert!(out.contains("test_latency_ms_count{} 3"));
    assert!(out.contains(&format!("test_latency_ms_sum{{}} {}", 3 + 30 + 3000)));
}

#[test]
fn labels_stand_in_every_line_and_a_long_request_in_the_last_bucket_alone() {
    let mut h = LatencyHistogram::default();
    h.record(5001);
    let mut out = String::new();
    h.render("x", "a=\"b\"", &mut out);
    assert!(out.starts_with("x_bucket{a=\"b\",le=\"1\"} 0\n"));
    assert!(out.contains("x_bucket{a=\"b\",le=\"5000\"} 0\n"));
    assert!(out.ends_with(
        "x_bucket{a=\"b\",le=\"+Inf\"} 1\nx_sum{a=\"b\"} 5001\nx_count{a=\"b\"} 1\n"
    ));
}

#[test]
fn counters_are_rendered_one_below_the_other() {
    let mut m = MetricsCollector::new();
    m.record_connection_open();
    m.record_connection_open();
    m.record_connection_close();
    m.record_quota_throttle();
    m.record_acl_deny();
    m.record_fetch_topic("t", 7);
    let text = m.render_prometheus(3, 2);
    assert!(text.starts_with(
        "# HELP bifrox_produce_bytes_total Total bytes produced to Bifrox brokers.\n\
         # TYPE bifrox_produce_bytes_total counter\n\
         bifrox_produce_bytes_total 0\n\n\
         # HELP bifrox_fetch_bytes_total Total bytes fetched from Bifrox brokers.\n\
         # TYPE bifrox_fetch_bytes_total counter\n\
         bifrox_fetch_bytes_total 7\n\n"
    ));
    assert!(text.contains("\nbifrox_active_connections 1\n"));
    assert!(text.contains("\nbifrox_topics_count 3\n"));
    assert!(text.contains("\nbifrox_active_brokers_count 2\n"));
    assert!(text.contains("\nbifrox_quota_throttled_clients_total 1\n"));
    assert!(text.contains("\nbifrox_acl_denied_requests_total 1\n"));
    assert!(text.contains("bifrox_topic_fetch_bytes_total{topic=\"t\"} 7\n\n# HELP bifrox_produce_latency_ms "));
    assert!(text.ends_with("bifrox_fetch_latency_ms_count{} 0\n"));
}

#[test]
fn a_scrape_needs_the_token_if_there_is_one() {
    let open = metrics_reply(b"GET /metrics", None, "body");
    assert_eq!(
        open,
        "HTTP/1.1 200 OK\r\nContent-Type: text/plain; version=0.0.4\r\nContent-Length: 4\r\nConnection: close\r\n\r\nbody"
    );
    let right = metrics_reply(b"GET /\r\nAuthorization: Bearer t0k\r\n", Some("t0k"), "é");
    assert!(right.contains("Content-Length: 2\r\n"));
    let wrong = metrics_reply(b"GET /\r\nAuthorization: Bearer no\r\n\xff", Some("t0k"), "x");
    assert!(wrong.starts_with("HTTP/1.1 401 Unauthorized\r\n"));
    assert!(forbidden_reply().starts_with("HTTP/1.1 403 Forbidden\r\n"));
}

#[test]
fn the_metrics_port_lies_above_the_broker_s() {
    assert_eq!(metrics_port(9092), 10092);
    assert_eq!(metrics_port(64535), 65535);
    assert_eq!(metrics_port(64536), 9090);
    assert_eq!(metrics_bind_addr(Some("0.0.0.0:1"), 5), "0.0.0.0:1");
    assert_eq!(metrics_bind_addr(Some("nowhere"), 5), "127.0.0.1:1005");
    assert_eq!(metrics_bind_addr(None, 65000), "127.0.0.1:9090");
}

#[test]
fn certificates_are_asked_for_by_three_words() {
    for word in ["required", "Requested", "TRUE"] {
        assert!(client_auth_enabled(word));
    }
    for word in ["none", "", "yes", "required "] {
        assert!(!client_auth_enabled(word));
    }
}
