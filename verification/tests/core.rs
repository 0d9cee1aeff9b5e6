use telemetry_core::manager::{report_response_json, StatsMgr};
use telemetry_core::notifier::{next_backoff, Cmp, NotificationRule, Notifier};
use telemetry_core::num::{Dec, MAX_SCALE};
use telemetry_core::parse::{parse_report, ParseError};
use telemetry_core::render::render_snapshot;
use telemetry_core::report::{MetricValue, Report};
use telemetry_core::store::MetricStore;

fn mgr_no_rules() -> StatsMgr {
    StatsMgr::new(Vec::new(), 1000, 16).unwrap()
}

fn cpu_rule(threshold_units: i64, cooldown: i64) -> NotificationRule {
    NotificationRule {
        metric_name: String::from("cpu"),
        cmp: Cmp::Gt,
        threshold: Dec { units: threshold_units, scale: 0 },
        cooldown,
    }
}

#[test]
fn merge_twice_last_count_min_max() {
    // merging one metric twice keeps the last value, counts two, and
    // the envelope bounds both values.
    let mut store = MetricStore::new();
    let r1 = Report {
        client_id: String::from("c"),
        timestamp: 1,
        metrics: vec![(String::from("m"), MetricValue::Num(Dec { units: 5, scale: 0 }))],
    };
    let r2 = Report {
        client_id: String::from("c"),
        timestamp: 2,
        metrics: vec![(String::from("m"), MetricValue::Num(Dec { units: 3, scale: 0 }))],
    };
    store.merge(&r1);
    let (rec, _) = store.merge(&r2);
    assert_eq!(rec.metrics.len(), 1);
    let agg = &rec.metrics[0].1;
    assert_eq!(agg.count, 2);
    match &agg.last {
        MetricValue::Num(d) => assert_eq!((d.units, d.scale), (3, 0)),
        _ => panic!("last value should be numeric"),
    }
    let num = agg.num.as_ref().unwrap();
    assert_eq!((num.min.units, num.min.scale), (3, 0));
    assert_eq!((num.max.units, num.max.scale), (5, 0));
    assert_eq!(num.sum, 8_000_000);
}

#[test]
fn distinct_clients_counted_once() {
    // after reports for N distinct clients the snapshot holds exactly N
    // records, each client exactly once.
    let mut store = MetricStore::new();
    for k in 0..8 {
        let rep = Report {
            client_id: format!("client-{}", k),
            timestamp: 100 + k,
            metrics: vec![(String::from("m"), MetricValue::Num(Dec { units: k, scale: 0 }))],
        };
        store.merge(&rep);
    }
    let snap = store.snapshot();
    assert_eq!(snap.records.len(), 8);
    for i in 0..snap.records.len() {
        for j in i + 1..snap.records.len() {
            assert_ne!(snap.records[i].client_id, snap.records[j].client_id);
        }
    }
}

#[test]
fn malformed_body_leaves_store_unchanged() {
    // a malformed body is rejected and the store is unchanged.
    let mut mgr = mgr_no_rules();
    mgr.report("{\"client_id\":\"a\",\"cpu\":1}", 10).unwrap();
    let before = render_snapshot(&mgr.snapshot());
    let r = mgr.report("{not json", 20);
    assert!(matches!(r, Err(ParseError::InvalidPayload)));
    let after = render_snapshot(&mgr.snapshot());
    assert_eq!(before, after);
}

#[test]
fn cooldown_suppresses_then_refires() {
    // ten triggering reports inside one cooldown window dispatch one
    // event; one more after the window dispatches a second.
    let mut mgr = StatsMgr::new(vec![cpu_rule(80, 60)], 1_000_000, 16).unwrap();
    for k in 0..10 {
        let body = format!("{{\"client_id\":\"dev-1\",\"ts\":{},\"cpu\":95}}", 1000 + k);
        mgr.report(&body, 1000 + k).unwrap();
    }
    let first = mgr.next_event().expect("one event should have fired");
    assert_eq!(first.client_id, "dev-1");
    assert_eq!(first.fired_at, 1000);
    assert!(mgr.next_event().is_none());
    mgr.report("{\"client_id\":\"dev-1\",\"ts\":1061,\"cpu\":95}", 1061)
        .unwrap();
    let second = mgr.next_event().expect("a second event after the cooldown");
    assert_eq!(second.fired_at, 1061);
    assert!(mgr.next_event().is_none());
}

#[test]
fn snapshot_reload_round_trip() {
    // reloading a snapshot and snapshotting again yields the same
    // structure.
    let mut mgr = mgr_no_rules();
    mgr.report("{\"client_id\":\"a\",\"ts\":5,\"cpu\":1.5,\"host\":\"x\"}", 5)
        .unwrap();
    mgr.report("{\"client_id\":\"b\",\"ts\":6,\"up\":true}", 6).unwrap();
    let snap = mgr.snapshot();
    let text = render_snapshot(&snap);
    assert!(mgr.reload(snap));
    let again = render_snapshot(&mgr.snapshot());
    assert_eq!(text, again);
}

#[test]
fn concrete_scenario_two_cpu_reports() {
    // two reports for one client, checked against the exact snapshot text.
    let mut mgr = mgr_no_rules();
    let sz = mgr
        .report("{\"client_id\":\"dev-1\",\"ts\":1000,\"cpu\":87.5}", 1)
        .unwrap();
    assert_eq!(sz, 42);
    mgr.report("{\"client_id\":\"dev-1\",\"ts\":2000,\"cpu\":92.0}", 2)
        .unwrap();
    let json = mgr.snapshot_json(2000);
    assert_eq!(
        json,
        "{\"dev-1\":{\"cpu\":{\"last\":92.0,\"count\":2,\"min\":87.5,\"max\":92.0}}}"
    );
}

#[test]
fn eviction_forgets_history() {
    // a stale client is absent from the next snapshot, and a later
    // report starts a fresh record with count 1.
    let mut mgr = StatsMgr::new(Vec::new(), 50, 16).unwrap();
    mgr.report("{\"client_id\":\"old\",\"ts\":1000,\"m\":1}", 1000).unwrap();
    let json = mgr.snapshot_json(2000);
    assert_eq!(json, "{}");
    mgr.report("{\"client_id\":\"old\",\"ts\":2100,\"m\":7}", 2100).unwrap();
    let snap = mgr.snapshot();
    assert_eq!(snap.records.len(), 1);
    assert_eq!(snap.records[0].metrics[0].1.count, 1);
    match &snap.records[0].metrics[0].1.last {
        MetricValue::Num(d) => assert_eq!(d.units, 7),
        _ => panic!("fresh record should hold the new value"),
    }
}

#[test]
fn eviction_keeps_clients_at_cutoff() {
    let mut mgr = StatsMgr::new(Vec::new(), 100, 16).unwrap();
    mgr.report("{\"client_id\":\"edge\",\"ts\":1900,\"m\":1}", 1900).unwrap();
    // last_seen == now - ttl stays
    let json = mgr.snapshot_json(2000);
    assert!(json.contains("edge"));
}

#[test]
fn missing_client_id_rejected() {
    let mut mgr = mgr_no_rules();
    assert!(mgr.report("{\"cpu\":1}", 1).is_err());
    assert!(mgr.report("{}", 1).is_err());
    assert!(mgr.report("", 1).is_err());
    assert!(mgr.report("[1,2]", 1).is_err());
    assert!(mgr.report("{\"client_id\":\"\",\"cpu\":1}", 1).is_err());
    assert!(mgr.report("{\"client_id\":7,\"cpu\":1}", 1).is_err());
}

#[test]
fn unsupported_metric_value_drops_only_that_metric() {
    let mut mgr = mgr_no_rules();
    mgr.report(
        "{\"client_id\":\"a\",\"bad\":null,\"worse\":{\"x\":[1,2,{}]},\"ok\":3}",
        1,
    )
    .unwrap();
    let snap = mgr.snapshot();
    assert_eq!(snap.records.len(), 1);
    let names: Vec<&str> = snap.records[0]
        .metrics
        .iter()
        .map(|p| p.0.as_str())
        .collect();
    assert_eq!(names, vec!["ok"]);
}

#[test]
fn oversized_number_drops_metric() {
    let mut mgr = mgr_no_rules();
    mgr.report(
        "{\"client_id\":\"a\",\"huge\":123456789012345678901234567890,\"exp\":1e9,\"fine\":-2.25}",
        1,
    )
    .unwrap();
    let snap = mgr.snapshot();
    let names: Vec<&str> = snap.records[0]
        .metrics
        .iter()
        .map(|p| p.0.as_str())
        .collect();
    assert_eq!(names, vec!["fine"]);
    match &snap.records[0].metrics[0].1.last {
        MetricValue::Num(d) => assert_eq!((d.units, d.scale), (-225, 2)),
        _ => panic!("expected a number"),
    }
}

#[test]
fn timestamp_must_be_integer() {
    let mut mgr = mgr_no_rules();
    assert!(mgr.report("{\"client_id\":\"a\",\"ts\":1.5}", 1).is_err());
    assert!(mgr.report("{\"client_id\":\"a\",\"ts\":\"late\"}", 1).is_err());
}

#[test]
fn omitted_timestamp_uses_ingestion_time() {
    let mut mgr = mgr_no_rules();
    mgr.report("{\"client_id\":\"a\",\"m\":1}", 777).unwrap();
    let snap = mgr.snapshot();
    assert_eq!(snap.records[0].last_seen, 777);
}

#[test]
fn out_of_order_timestamp_accepted_not_regressed() {
    let mut store = MetricStore::new();
    let r1 = Report {
        client_id: String::from("c"),
        timestamp: 2000,
        metrics: vec![(String::from("m"), MetricValue::Num(Dec { units: 1, scale: 0 }))],
    };
    let r2 = Report {
        client_id: String::from("c"),
        timestamp: 1000,
        metrics: vec![(String::from("m"), MetricValue::Num(Dec { units: 2, scale: 0 }))],
    };
    store.merge(&r1);
    let (rec, out_of_order) = store.merge(&r2);
    assert!(out_of_order);
    assert_eq!(rec.last_seen, 2000);
    assert_eq!(rec.metrics[0].1.count, 2);
    match &rec.metrics[0].1.last {
        MetricValue::Num(d) => assert_eq!(d.units, 2),
        _ => panic!("expected a number"),
    }
}

#[test]
fn string_escapes_and_text_metrics() {
    let mut mgr = mgr_no_rules();
    mgr.report(
        "{\"client_id\":\"a\",\"note\":\"line\\nbreak \\\"q\\\"\",\"flag\":false}",
        1,
    )
    .unwrap();
    let json = mgr.snapshot_json(1);
    assert_eq!(
        json,
        "{\"a\":{\"note\":{\"last\":\"line\\nbreak \\\"q\\\"\",\"count\":1},\"flag\":{\"last\":false,\"count\":1}}}"
    );
}

#[test]
fn trailing_garbage_rejected() {
    let mut mgr = mgr_no_rules();
    assert!(mgr.report("{\"client_id\":\"a\"} extra", 1).is_err());
    assert!(mgr.report("{\"client_id\":\"a\"", 1).is_err());
}

#[test]
fn duplicate_metric_in_one_report_counts_twice() {
    let mut mgr = mgr_no_rules();
    mgr.report("{\"client_id\":\"a\",\"m\":1,\"m\":9}", 1).unwrap();
    let snap = mgr.snapshot();
    assert_eq!(snap.records[0].metrics.len(), 1);
    let agg = &snap.records[0].metrics[0].1;
    assert_eq!(agg.count, 2);
    match &agg.last {
        MetricValue::Num(d) => assert_eq!(d.units, 9),
        _ => panic!("expected a number"),
    }
}

#[test]
fn reload_refuses_malformed_snapshot() {
    let mut mgr = mgr_no_rules();
    mgr.report("{\"client_id\":\"a\",\"m\":1}", 1).unwrap();
    let mut snap = mgr.snapshot();
    // duplicate the one record: two records for one client are malformed
    let copy = telemetry_core::store::rec_dup(&snap.records[0]);
    snap.records.push(copy);
    let before = render_snapshot(&mgr.snapshot());
    assert!(!mgr.reload(snap));
    assert_eq!(render_snapshot(&mgr.snapshot()), before);
}

#[test]
fn backoff_is_bounded_exponential() {
    assert_eq!(next_backoff(0), Some(500));
    assert_eq!(next_backoff(1), Some(1000));
    assert_eq!(next_backoff(2), Some(2000));
    assert_eq!(next_backoff(3), Some(4000));
    assert_eq!(next_backoff(4), Some(8000));
    assert_eq!(next_backoff(5), None);
    assert_eq!(next_backoff(100), None);
}

#[test]
fn notifier_refuses_bad_rule() {
    let bad = NotificationRule {
        metric_name: String::from("cpu"),
        cmp: Cmp::Ge,
        threshold: Dec { units: 1, scale: MAX_SCALE + 1 },
        cooldown: 10,
    };
    assert!(Notifier::new(vec![bad], 4).is_none());
    let negative = NotificationRule {
        metric_name: String::from("cpu"),
        cmp: Cmp::Ge,
        threshold: Dec { units: 1, scale: 0 },
        cooldown: -1,
    };
    assert!(Notifier::new(vec![negative], 4).is_none());
}

#[test]
fn response_json_shape() {
    assert_eq!(report_response_json(0), "{\"code\":0,\"size\":0}");
    assert_eq!(report_response_json(1234), "{\"code\":0,\"size\":1234}");
}

#[test]
fn parse_report_standalone() {
    let rep = parse_report("{\"client_id\":\"x\",\"ts\":-5,\"m\":\"v\"}", 0).unwrap();
    assert_eq!(rep.client_id, "x");
    assert_eq!(rep.timestamp, -5);
    assert_eq!(rep.metrics.len(), 1);
    assert_eq!(rep.metrics[0].0, "m");
    match &rep.metrics[0].1 {
        MetricValue::Text(t) => assert_eq!(t, "v"),
        _ => panic!("expected text"),
    }
}

#[test]
fn negative_decimal_rendering() {
    let mut mgr = mgr_no_rules();
    mgr.report("{\"client_id\":\"n\",\"t\":-2.25}", 1).unwrap();
    mgr.report("{\"client_id\":\"n\",\"t\":-0.5}", 2).unwrap();
    let json = mgr.snapshot_json(2);
    assert_eq!(
        json,
        "{\"n\":{\"t\":{\"last\":-0.5,\"count\":2,\"min\":-2.25,\"max\":-0.5}}}"
    );
}

#[test]
fn rule_ignores_non_numeric_last_value() {
    let mut mgr = StatsMgr::new(vec![cpu_rule(80, 60)], 1_000_000, 16).unwrap();
    mgr.report("{\"client_id\":\"d\",\"ts\":1,\"cpu\":\"busy\"}", 1).unwrap();
    assert!(mgr.next_event().is_none());
    mgr.report("{\"client_id\":\"d\",\"ts\":2,\"cpu\":99}", 2).unwrap();
    assert!(mgr.next_event().is_some());
}

#[test]
fn queue_bound_drops_overflow() {
    // capacity 1: the second client's firing event finds the queue full
    let mut mgr = StatsMgr::new(vec![cpu_rule(80, 60)], 1_000_000, 1).unwrap();
    mgr.report("{\"client_id\":\"a\",\"ts\":1,\"cpu\":99}", 1).unwrap();
    mgr.report("{\"client_id\":\"b\",\"ts\":1,\"cpu\":99}", 1).unwrap();
    let only = mgr.next_event().unwrap();
    assert_eq!(only.client_id, "a");
    assert!(mgr.next_event().is_none());
    // the pair was still stamped: "b" stays quiet inside its window
    mgr.report("{\"client_id\":\"b\",\"ts\":2,\"cpu\":99}", 2).unwrap();
    assert!(mgr.next_event().is_none());
}

#[test]
fn scale_capped_at_six_fraction_digits() {
    let mut mgr = mgr_no_rules();
    mgr.report("{\"client_id\":\"p\",\"a\":0.1234567,\"b\":0.123456}", 1)
        .unwrap();
    let snap = mgr.snapshot();
    let names: Vec<&str> = snap.records[0]
        .metrics
        .iter()
        .map(|p| p.0.as_str())
        .collect();
    assert_eq!(names, vec!["b"]);
}
