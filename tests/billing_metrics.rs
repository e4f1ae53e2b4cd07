use gptload_rs::billing::{decode_balance, encode_balance, should_flush, BillingStore};
use gptload_rs::metrics::{
    classify_status, update_bucket, MetricsBucket, MetricsWindow, RequestLogEntry, RequestMetrics, RequestsLog,
};
use std::collections::VecDeque;

fn entry(ts_ms: u64, status: u16) -> RequestLogEntry {
    RequestLogEntry {
        ts_ms,
        client_ip: "127.0.0.1".to_string(),
        method: "POST".to_string(),
        path: "/v1/chat/completions".to_string(),
        model: Some("gpt".to_string()),
        upstream_id: None,
        status,
        latency_ms: 1,
        req_bytes: 10,
        resp_bytes: 20,
        prompt_tokens: None,
        completion_tokens: None,
        total_tokens: None,
    }
}

#[test]
fn status_classes_partition() {
    for s in 0u16..1000 {
        let (a, b, c) = classify_status(s);
        assert_eq!(a + b + c, 1);
    }
    assert_eq!(classify_status(200), (1, 0, 0));
    assert_eq!(classify_status(299), (1, 0, 0));
    assert_eq!(classify_status(404), (0, 0, 1));
    assert_eq!(classify_status(503), (0, 1, 0));
    assert_eq!(classify_status(199), (0, 1, 0));
}

#[test]
fn buckets_fill_gaps_and_keep_cap() {
    let mut b: VecDeque<MetricsBucket> = VecDeque::new();
    update_bucket(&mut b, 61_500, 60_000, 3, 1, 0, 0);
    assert_eq!(b.len(), 1);
    assert_eq!(b[0].ts_ms, 60_000);
    update_bucket(&mut b, 62_000, 60_000, 3, 0, 1, 0);
    assert_eq!(b[0], MetricsBucket { ts_ms: 60_000, total: 2, success: 1, failure: 1, ignored: 0 });
    update_bucket(&mut b, 250_000, 60_000, 3, 0, 0, 1);
    assert_eq!(b.len(), 3);
    assert_eq!(b[0].ts_ms, 120_000);
    assert_eq!(b[1], MetricsBucket { ts_ms: 180_000, total: 0, success: 0, failure: 0, ignored: 0 });
    assert_eq!(b[2], MetricsBucket { ts_ms: 240_000, total: 1, success: 0, failure: 0, ignored: 1 });
}

#[test]
fn metrics_windows() {
    assert_eq!(MetricsWindow::from_str("hour"), MetricsWindow::Hour);
    assert_eq!(MetricsWindow::from_str("day"), MetricsWindow::Day);
    assert_eq!(MetricsWindow::from_str("week"), MetricsWindow::Minute);
    assert_eq!(MetricsWindow::Day.as_str(), "day");
    let mut m = RequestMetrics::new();
    m.update(&entry(3_600_000 * 5 + 10, 200));
    m.update(&entry(3_600_000 * 5 + 70_000, 404));
    assert_eq!(m.snapshot(MetricsWindow::Minute).len(), 2);
    let hour = m.snapshot(MetricsWindow::Hour);
    assert_eq!(hour.len(), 1);
    assert_eq!(hour[0], MetricsBucket { ts_ms: 3_600_000 * 5, total: 2, success: 1, failure: 0, ignored: 1 });
}

#[test]
fn request_log_is_a_bounded_fifo() {
    let mut log = RequestsLog::new(5000);
    for i in 0..5003u64 {
        log.record(entry(i, 200));
    }
    let recent = log.recent(10_000);
    assert_eq!(recent.len(), 5000);
    assert_eq!(recent[0].ts_ms, 5002);
    assert_eq!(recent[4999].ts_ms, 3);
    let few = log.recent(2);
    assert_eq!(few.len(), 2);
    assert_eq!(few[1].ts_ms, 5001);
    assert_eq!(log.metrics_snapshot(MetricsWindow::Minute)[0].total, 5003);
}

#[test]
fn billing_create_adjust_get() {
    let mut b = BillingStore::new();
    assert!(b.create_key("k".to_string(), 100));
    assert!(!b.create_key("k".to_string(), 5));
    assert_eq!(b.get_balance("k"), Some(100));
    assert_eq!(b.get_balance("nope"), None);
    let new = b.adjust_balance("k", -30).unwrap();
    assert_eq!(new, 70);
    assert_eq!(b.get_balance("k"), Some(new));
    assert_eq!(b.adjust_balance("nope", 1), None);
    assert_eq!(b.apply_usage("k", 0), Some(70));
    assert_eq!(b.apply_usage("k", 20), Some(50));
    assert_eq!(b.apply_usage("k", u64::MAX), None);
    let pending = b.take_pending();
    assert_eq!(pending, vec![("k".to_string(), 100), ("k".to_string(), 70), ("k".to_string(), 50)]);
    assert!(b.take_pending().is_empty());
}

#[test]
fn billing_saturates() {
    let mut b = BillingStore::new();
    b.create_key("hi".to_string(), i64::MAX - 1);
    assert_eq!(b.adjust_balance("hi", 10), Some(i64::MAX));
    b.create_key("lo".to_string(), i64::MIN + 1);
    assert_eq!(b.adjust_balance("lo", -10), Some(i64::MIN));
}

#[test]
fn balance_codec() {
    assert_eq!(encode_balance(1), vec![1, 0, 0, 0, 0, 0, 0, 0]);
    assert_eq!(encode_balance(-1), vec![255; 8]);
    assert_eq!(encode_balance(-100), (-100i64).to_le_bytes().to_vec());
    for v in [0i64, 1, -1, 258, i64::MAX, i64::MIN, -100] {
        assert_eq!(decode_balance(&encode_balance(v)), Some(v));
    }
    assert_eq!(decode_balance(&[1, 2, 3]), None);
}

#[test]
fn billing_persistence_restart() {
    let mut b = BillingStore::new();
    assert!(b.create_key("k".to_string(), 50));
    for _ in 0..50 {
        b.adjust_balance("k", -3);
    }
    assert_eq!(b.get_balance("k"), Some(-100));
    let mut staged: Vec<(String, i64)> = Vec::new();
    for (k, v) in b.take_pending() {
        staged.retain(|(s, _)| s != &k);
        staged.push((k, v));
    }
    let mut restarted = BillingStore::new();
    for (k, v) in staged {
        restarted.load_entry(k, &encode_balance(v));
    }
    assert_eq!(restarted.get_balance("k"), Some(-100));
}

#[test]
fn flush_policy() {
    assert!(!should_flush(10, 999));
    assert!(should_flush(1024, 0));
    assert!(should_flush(0, 1000));
}
