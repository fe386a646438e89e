//! The diagnostic checks and the page that gathers them.

use tracium::diagnostics::{
    check_bufferbloat_jitter, check_dns_degraded, check_frequent_disconnects,
    check_route_instability, classify_real_outage,
};
use tracium::number::Reading;
use tracium::rows::{
    DnsResolverStat, NewConnectivitySample, SpeedtestRow, TracerouteHopRow, TracerouteView,
    OUTAGE_CAUSE_GAP, OUTAGE_CAUSE_REAL,
};
use tracium::store::Store;

fn nano(x: f64) -> u64 {
    (x * 1e9).round() as u64
}

fn reading(x: f64) -> Reading {
    Reading { billionths: (x * 1e9).round() as i64 }
}

fn hop(hop_no: i64, ip: &str, loss_pct: Option<f64>) -> TracerouteHopRow {
    TracerouteHopRow {
        hop_no,
        ip: Some(ip.to_string()),
        hostname: None,
        rtt_ms: Some(reading(5.0)),
        loss_pct: loss_pct.map(reading),
        asn: None,
        as_name: None,
    }
}

fn trace(hops: Vec<TracerouteHopRow>) -> TracerouteView {
    TracerouteView {
        id: 1,
        ts: 0,
        target: "1.1.1.1".into(),
        hop_count: hops.len() as i64,
        route_hash: "hash".into(),
        hops,
    }
}

fn stat(resolver: &str, avg_ms: f64, failures: u64) -> DnsResolverStat {
    DnsResolverStat { resolver: resolver.into(), avg_ms: Some(nano(avg_ms)), count: 10, failures }
}

#[test]
fn classify_real_outage_true_when_samples_match_cadence() {
    // Four samples are expected in a minute.
    assert!(classify_real_outage(60_000, 4));
}

#[test]
fn classify_real_outage_false_when_mostly_a_sample_gap() {
    assert!(!classify_real_outage(7_560_000, 2));
}

#[test]
fn classify_real_outage_true_for_zero_duration() {
    assert!(classify_real_outage(0, 0));
}

#[test]
fn route_instability_silent_with_no_traceroute() {
    assert_eq!(check_route_instability(None, 10), None);
}

#[test]
fn route_instability_silent_below_thresholds() {
    // Loss, but too few route changes.
    let t = trace(vec![hop(1, "192.168.1.1", Some(0.0)), hop(6, "1.1.1.1", Some(40.0))]);
    assert_eq!(check_route_instability(Some(&t), 1), None);

    // Enough route changes, but no loss past the gateway.
    let t2 = trace(vec![hop(1, "192.168.1.1", Some(0.0)), hop(6, "1.1.1.1", Some(0.0))]);
    assert_eq!(check_route_instability(Some(&t2), 10), None);
}

#[test]
fn route_instability_fires_when_both_conditions_met() {
    let t = trace(vec![hop(1, "192.168.1.1", Some(0.0)), hop(6, "1.1.1.1", Some(40.0))]);
    let d = check_route_instability(Some(&t), 4).expect("should fire");
    assert_eq!(d.key, "route_instability");
    assert_eq!(d.severity, "warn");
    assert!(d.detail.contains("1.1.1.1"));
    assert!(d.detail.contains("40"));
    assert_eq!(d.summary, "4 route changes in the last 6h, 40% loss on hop 6");
}

#[test]
fn route_instability_ignores_the_gateway_hop() {
    let t = trace(vec![hop(1, "192.168.1.1", Some(100.0))]);
    assert_eq!(check_route_instability(Some(&t), 10), None);
}

#[test]
fn route_instability_names_the_worst_hop() {
    let t = trace(vec![hop(2, "a", Some(30.0)), hop(3, "b", Some(60.0)), hop(4, "c", Some(20.0))]);
    let d = check_route_instability(Some(&t), 5).expect("should fire");
    assert!(d.summary.ends_with("60% loss on hop 3"));
}

#[test]
fn frequent_disconnects_silent_below_threshold() {
    assert_eq!(check_frequent_disconnects(2), None);
}

#[test]
fn frequent_disconnects_fires_at_threshold() {
    let d = check_frequent_disconnects(3).expect("should fire");
    assert_eq!(d.key, "frequent_disconnects");
    assert!(d.detail.contains('3'));
}

#[test]
fn bufferbloat_jitter_silent_when_clean() {
    let speed = SpeedtestRow { bufferbloat_grade: Some("A".into()), ..Default::default() };
    assert_eq!(check_bufferbloat_jitter(Some(&speed), Some(nano(5.0))), None);
    assert_eq!(check_bufferbloat_jitter(None, None), None);
}

#[test]
fn bufferbloat_jitter_fires_on_poor_grade() {
    let speed = SpeedtestRow { bufferbloat_grade: Some("F".into()), ..Default::default() };
    let d = check_bufferbloat_jitter(Some(&speed), Some(nano(5.0))).expect("should fire");
    assert_eq!(d.key, "bufferbloat_jitter");
    assert!(d.summary.contains('F'));
}

#[test]
fn bufferbloat_jitter_fires_on_high_jitter_alone() {
    let d = check_bufferbloat_jitter(None, Some(nano(25.0))).expect("should fire");
    assert_eq!(d.key, "bufferbloat_jitter");
    assert!(d.summary.contains("25"));
}

#[test]
fn dns_degraded_silent_when_fast_and_clean() {
    assert_eq!(check_dns_degraded(&vec![stat("1.1.1.1", 5.0, 0)]), None);
}

#[test]
fn dns_degraded_fires_on_any_failures() {
    let stats = vec![stat("1.1.1.1", 5.0, 0), stat("8.8.8.8", 30.0, 2)];
    let d = check_dns_degraded(&stats).expect("should fire");
    assert_eq!(d.key, "dns_degraded");
}

#[test]
fn dns_degraded_fires_when_all_resolvers_slow() {
    let stats = vec![stat("1.1.1.1", 150.0, 0), stat("8.8.8.8", 200.0, 0)];
    assert!(check_dns_degraded(&stats).is_some());
}

#[test]
fn dns_degraded_silent_when_only_one_of_several_is_slow() {
    let stats = vec![stat("1.1.1.1", 5.0, 0), stat("8.8.8.8", 200.0, 0)];
    assert_eq!(check_dns_degraded(&stats), None);
}

#[test]
fn diagnostics_of_a_quiet_store_are_empty() {
    let store = Store::open_in_memory();
    assert!(store.diagnostics(1_000_000_000).is_empty());
}

fn failed_at(ts: i64) -> NewConnectivitySample {
    NewConnectivitySample {
        ts,
        target_id: 1,
        ip_version: 4,
        sent: 1,
        received: 0,
        loss_pct: nano(100.0),
        rtt_min: None,
        rtt_avg: None,
        rtt_max: None,
        rtt_jitter: None,
        up: false,
    }
}

#[test]
fn close_outage_classified_marks_real_outage() {
    let mut store = Store::open_in_memory();
    store.seed_default_targets(0);
    let id = store.open_outage(1000, Some(OUTAGE_CAUSE_REAL)).unwrap();
    store.insert_connectivity_sample(failed_at(1000)).unwrap();
    store.insert_connectivity_sample(failed_at(16_000)).unwrap();
    assert!(store.close_outage_classified(id, 1000, 31_000, Some(0)));
    let outages = store.recent_outages(1);
    assert_eq!(outages[0].cause.as_deref(), Some(OUTAGE_CAUSE_REAL));
    assert_eq!((outages[0].ts_end, outages[0].duration_ms), (Some(31_000), Some(30_000)));
    assert_eq!(outages[0].reconnect_ms, Some(0));
}

#[test]
fn close_outage_classified_marks_gap_outage() {
    let mut store = Store::open_in_memory();
    store.seed_default_targets(0);
    let id = store.open_outage(1000, Some(OUTAGE_CAUSE_REAL)).unwrap();
    // No sample in two hours.
    assert!(!store.close_outage_classified(id, 1000, 1000 + 7_200_000, Some(0)));
    assert_eq!(store.recent_outages(1)[0].cause.as_deref(), Some(OUTAGE_CAUSE_GAP));
    assert_eq!(OUTAGE_CAUSE_GAP, "device was asleep/off");
}

#[test]
fn diagnostics_excludes_sleep_gapped_outages_from_frequent_disconnects() {
    let mut store = Store::open_in_memory();
    store.seed_default_targets(0);
    for base in [1_000, 100_000, 200_000] {
        let id = store.open_outage(base, Some(OUTAGE_CAUSE_REAL)).unwrap();
        store.insert_connectivity_sample(failed_at(base)).unwrap();
        store.insert_connectivity_sample(failed_at(base + 15_000)).unwrap();
        store.close_outage_classified(id, base, base + 30_000, Some(0));
    }
    // Two hours with one sample: the device slept.
    let id = store.open_outage(300_000, Some(OUTAGE_CAUSE_REAL)).unwrap();
    store.insert_connectivity_sample(failed_at(300_000)).unwrap();
    store.close_outage_classified(id, 300_000, 300_000 + 7_200_000, Some(0));

    assert_eq!(store.real_outage_count(0), 3);
    let flags = store.diagnostics(400_000);
    assert_eq!(flags.len(), 1);
    assert_eq!(flags[0].key, "frequent_disconnects");
    assert!(flags[0].detail.contains('3'));
}

#[test]
fn route_change_excludes_events_near_a_gap_outage() {
    let mut store = Store::open_in_memory();
    let id = store.open_outage(100_000, Some(OUTAGE_CAUSE_REAL)).unwrap();
    store.close_outage_classified(id, 100_000, 200_000, Some(0));
    // Two minutes around the gap do not count.
    store.insert_event(260_000, "route_change", "warn", None, None).unwrap();
    store.insert_event(320_000, "route_change", "warn", None, None).unwrap();
    store.insert_event(320_001, "route_change", "warn", None, None).unwrap();
    store.insert_event(500_000, "roam", "info", None, None).unwrap();
    assert_eq!(store.route_change_count_excluding_gaps(0), 1);
    // A gap that ended before the window explains nothing in it.
    assert_eq!(store.route_change_count_excluding_gaps(250_000), 3);
}

#[test]
fn a_shorter_outage_with_the_same_samples_stays_real() {
    assert!(classify_real_outage(60_000, 2));
    assert!(classify_real_outage(59_999, 2) && classify_real_outage(60_000, 3));
    assert!(!classify_real_outage(60_001, 2));
}
