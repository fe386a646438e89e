//! The store's tables: what goes in comes back out.

use tracium::export::csv_field;
use tracium::number::Reading;
use tracium::order::percentile;
use tracium::rows::{
    Bucket, Metric, NewConnectivitySample, NewTarget, Rollup, SecuritySnapshot, Setting,
    SpeedtestRow, TracerouteHop, WifiSample, OUTAGE_CAUSE_GAP, OUTAGE_CAUSE_REAL,
};
use tracium::store::{Store, StoreError};

/// A quantity in billionths.
fn nano(x: f64) -> u64 {
    (x * 1e9).round() as u64
}

fn reading(x: f64) -> Reading {
    Reading { billionths: (x * 1e9).round() as i64 }
}

fn cloudflare() -> NewTarget {
    NewTarget {
        label: "Cloudflare".into(),
        host: "1.1.1.1".into(),
        kind: "internet".into(),
        ip_version: Some(4),
        enabled: true,
        created_at: 1_700_000_000_000,
    }
}

fn sample(ts: i64, target_id: i64, ip_version: i64, up: bool, rtt: f64) -> NewConnectivitySample {
    NewConnectivitySample {
        ts,
        target_id,
        ip_version,
        sent: 5,
        received: if up { 5 } else { 0 },
        loss_pct: if up { 0 } else { nano(100.0) },
        rtt_min: if up { Some(nano(10.0)) } else { None },
        rtt_avg: if up { Some(nano(rtt)) } else { None },
        rtt_max: if up { Some(nano(30.0)) } else { None },
        rtt_jitter: if up { Some(nano(2.0)) } else { None },
        up,
    }
}

#[test]
fn add_and_list_targets() {
    let mut store = Store::open_in_memory();
    assert!(store.list_targets().is_empty());

    let created = store.add_target(cloudflare()).unwrap();
    assert_eq!(created.id, 1);
    assert!(created.enabled);

    let all = store.list_targets();
    assert_eq!(all.len(), 1);
    assert_eq!(all[0].host, "1.1.1.1");
    assert_eq!(all[0].ip_version, Some(4));
}

#[test]
fn delete_target_removes_it_and_its_samples() {
    let mut store = Store::open_in_memory();
    store.seed_default_targets(0);
    store
        .insert_connectivity_sample(NewConnectivitySample {
            ts: 1,
            target_id: 1,
            ip_version: 4,
            sent: 1,
            received: 1,
            loss_pct: 0,
            rtt_min: Some(nano(1.0)),
            rtt_avg: Some(nano(1.0)),
            rtt_max: Some(nano(1.0)),
            rtt_jitter: Some(0),
            up: true,
        })
        .unwrap();
    store.delete_target(1);
    assert_eq!(store.list_targets().len(), 2);
    assert_eq!(store.recent_connectivity(10).len(), 0);

    store.set_target_enabled(2, false);
    assert!(!store.list_targets().iter().find(|t| t.id == 2).unwrap().enabled);
    assert!(store.is_wf());
}

#[test]
fn seed_default_targets_is_idempotent() {
    let mut store = Store::open_in_memory();
    store.seed_default_targets(0);
    store.seed_default_targets(0);
    assert_eq!(store.list_targets().len(), 3, "seeding twice should not duplicate");
    let seeded: Vec<(&str, &str, Option<i64>)> = store
        .list_targets()
        .iter()
        .map(|t| (t.label.as_str(), t.host.as_str(), t.ip_version))
        .collect();
    assert_eq!(
        seeded,
        vec![
            ("Cloudflare", "1.1.1.1", Some(4)),
            ("Google", "8.8.8.8", Some(4)),
            ("Cloudflare v6", "2606:4700:4700::1111", Some(6)),
        ]
    );
}

#[test]
fn a_new_identifier_follows_the_last() {
    let mut store = Store::open_in_memory();
    store.seed_default_targets(0);
    store.delete_target(2);
    assert_eq!(store.add_target(cloudflare()).unwrap().id, 4);
}

#[test]
fn a_full_table_refuses_a_row() {
    let mut store = Store::open_in_memory();
    store.seed_default_targets(0);
    store.targets[2].id = i64::MAX;
    assert_eq!(store.add_target(cloudflare()), Err(StoreError::Full));
    assert_eq!(store.list_targets().len(), 3);
}

#[test]
fn a_sample_of_an_unknown_target_is_refused() {
    let mut store = Store::open_in_memory();
    store.seed_default_targets(0);
    assert_eq!(
        store.insert_connectivity_sample(sample(1, 999, 4, true, 20.0)),
        Err(StoreError::NoSuchTarget)
    );
    assert!(store.recent_connectivity(10).is_empty());
}

#[test]
fn gateway_sample_roundtrip() {
    let mut store = Store::open_in_memory();
    assert!(store.latest_gateway().is_none());
    store.insert_gateway_sample(100, Some(reading(0.8)), reading(0.0));
    store.insert_gateway_sample(200, None, reading(100.0));
    let g = store.latest_gateway().unwrap();
    assert_eq!(g.ts, 200);
    assert_eq!(g.gateway_rtt_ms, None);
    assert_eq!(g.lan_loss_pct, Some(reading(100.0)));
    // Gateway rows move no bytes.
    assert_eq!(store.bandwidth_totals(0).unwrap().rx_bytes, 0);
}

#[test]
fn bandwidth_rate_and_totals() {
    let mut store = Store::open_in_memory();
    assert!(store.latest_bandwidth().is_none());

    store.insert_bandwidth_sample(100, 8_000_000, 1_000_000);
    store.insert_bandwidth_sample(200, 16_000_000, 2_000_000);
    store.insert_interface_bytes(100, "eth0", 1_000, 200);
    store.insert_interface_bytes(200, "eth0", 3_000, 400);

    let now = store.latest_bandwidth().unwrap();
    assert_eq!(now.ts, 200);
    assert_eq!(now.rx_bps, 16_000_000);

    let totals = store.bandwidth_totals(0).unwrap();
    assert_eq!(totals.rx_bytes, 4_000);
    assert_eq!(totals.tx_bytes, 600);
}

#[test]
fn a_sum_past_64_bits_is_an_error() {
    let mut store = Store::open_in_memory();
    store.insert_interface_bytes(100, "eth0", i64::MAX, 0);
    store.insert_interface_bytes(200, "eth0", 1, 0);
    assert_eq!(store.bandwidth_totals(0), Err(StoreError::Overflow));
    assert_eq!(store.bandwidth_totals(150).unwrap().rx_bytes, 1);
}

#[test]
fn qoe_rolling_average() {
    let mut store = Store::open_in_memory();
    assert!(store.qoe_average_since(0).is_none());
    // Two cycles: gaming 80, then 100.
    store.insert_qoe(100, nano(80.0), nano(90.0), nano(70.0), nano(60.0), nano(50.0));
    store.insert_qoe(200, nano(100.0), nano(100.0), nano(90.0), nano(80.0), nano(70.0));
    let a = store.qoe_average_since(0).unwrap();
    assert_eq!(a.samples, 2);
    assert_eq!(a.gaming, Some(nano(90.0)));
    assert_eq!(a.web, Some(nano(70.0)));
    // Only the second cycle.
    let a2 = store.qoe_average_since(150).unwrap();
    assert_eq!(a2.samples, 1);
    assert_eq!(a2.gaming, Some(nano(100.0)));
}

#[test]
fn speedtest_insert_and_history() {
    let mut store = Store::open_in_memory();
    assert!(store.speedtest_history(10).is_empty());
    store.insert_speedtest(&SpeedtestRow {
        ts: 100,
        engine: Some("librespeed-cli".into()),
        server: Some("X".into()),
        download_mbps: Some(reading(95.4)),
        upload_mbps: Some(reading(10.2)),
        ping_ms: Some(reading(12.0)),
        jitter_ms: Some(reading(1.4)),
        idle_latency_ms: Some(reading(12.0)),
        loaded_latency_ms: Some(reading(45.0)),
        bufferbloat_grade: Some("B".into()),
    });
    let h = store.speedtest_history(10);
    assert_eq!(h.len(), 1);
    assert_eq!(h[0].download_mbps, Some(reading(95.4)));
    assert_eq!(h[0].engine.as_deref(), Some("librespeed-cli"));
    assert_eq!(h[0].loaded_latency_ms, Some(reading(45.0)));
    assert_eq!(h[0].bufferbloat_grade.as_deref(), Some("B"));
    assert_eq!(store.latest_speedtest().unwrap().ts, 100);
}

#[test]
fn wifi_sample_roundtrip() {
    let mut store = Store::open_in_memory();
    assert!(store.latest_wifi().is_none());
    store.insert_wifi_sample(&WifiSample {
        ts: 100,
        ssid: Some("HomeNet".into()),
        bssid: Some("aa:bb:cc:dd:ee:ff".into()),
        rssi_dbm: Some(-45),
        quality_pct: None,
        link_speed_mbps: Some(reading(300.0)),
        band: Some("5".into()),
        channel: Some(36),
    });
    let w = store.latest_wifi().unwrap();
    assert_eq!(w.ssid.as_deref(), Some("HomeNet"));
    assert_eq!(w.rssi_dbm, Some(-45));
    assert_eq!(w.channel, Some(36));
}

#[test]
fn devices_upsert_and_count() {
    let mut store = Store::open_in_memory();
    store.upsert_device("aa:bb:cc:dd:ee:ff", "192.168.1.1", 1000).unwrap();
    store.upsert_device("11:22:33:44:55:66", "192.168.1.42", 1000).unwrap();
    // The same MAC with a new address and time updates its row.
    store.upsert_device("aa:bb:cc:dd:ee:ff", "192.168.1.2", 2000).unwrap();

    assert_eq!(store.list_devices().len(), 2);
    assert_eq!(store.active_device_count(0), 2);
    assert_eq!(store.active_device_count(1500), 1, "only the refreshed one");

    let devices = store.list_devices();
    assert_eq!(devices[0].mac.as_deref(), Some("aa:bb:cc:dd:ee:ff"));
    assert_eq!(devices[0].ip.as_deref(), Some("192.168.1.2"));
    assert_eq!(devices[0].first_seen, 1000);
    assert_eq!(devices[0].last_seen, 2000);
    assert!(devices[0].is_active);
}

fn hop(hop_no: i64, ip: Option<&str>, rtt: Option<f64>, loss: f64) -> TracerouteHop {
    TracerouteHop {
        hop_no,
        ip: ip.map(|s| s.to_string()),
        hostname: None,
        rtt_ms: rtt.map(reading),
        loss_pct: Some(reading(loss)),
        asn: None,
        as_name: None,
    }
}

#[test]
fn traceroute_save_and_read() {
    let mut store = Store::open_in_memory();
    assert!(store.latest_traceroute().is_none());
    assert!(store.last_route_hash("1.1.1.1").is_none());

    let mut last = hop(3, Some("1.1.1.1"), Some(9.0), 20.0);
    last.asn = Some("AS13335".into());
    last.as_name = Some("CLOUDFLARENET".into());
    let hops = vec![
        hop(1, Some("192.168.1.1"), Some(1.2), 0.0),
        hop(2, None, None, 100.0),
        last,
    ];
    store.save_traceroute(500, "1.1.1.1", "abc123", &hops).unwrap();

    assert_eq!(store.last_route_hash("1.1.1.1").as_deref(), Some("abc123"));
    assert_eq!(store.last_route_hash("8.8.8.8"), None);
    let view = store.latest_traceroute().unwrap();
    assert_eq!(view.target, "1.1.1.1");
    assert_eq!(view.hop_count, 3);
    assert_eq!(view.hops.len(), 3);
    assert_eq!(view.hops[0].ip.as_deref(), Some("192.168.1.1"));
    assert_eq!(view.hops[2].loss_pct, Some(reading(20.0)));
    assert_eq!(view.hops[2].as_name.as_deref(), Some("CLOUDFLARENET"));
    assert!(view.hops[1].ip.is_none());
    assert_eq!(view.hops, hops);
}

#[test]
fn saved_hops_are_read_by_number() {
    let mut store = Store::open_in_memory();
    let hops = vec![hop(2, Some("b"), None, 0.0), hop(1, Some("a"), None, 0.0)];
    store.save_traceroute(1, "x", "h", &hops).unwrap();
    let numbers: Vec<i64> = store.latest_traceroute().unwrap().hops.iter().map(|h| h.hop_no).collect();
    assert_eq!(numbers, vec![1, 2]);
}

#[test]
fn security_snapshot_roundtrip() {
    let mut store = Store::open_in_memory();
    assert!(store.latest_security().is_none());

    store.insert_security_snapshot(&SecuritySnapshot {
        ts: 100,
        firewall_active: Some(true),
        vpn_detected: Some(false),
        doh_active: Some(true),
        dot_active: Some(true),
        open_ports: Some("[22,443]".into()),
        ..Default::default()
    });

    let s = store.latest_security().unwrap();
    assert_eq!(s.ts, 100);
    assert_eq!(s.firewall_active, Some(true));
    assert_eq!(s.vpn_detected, Some(false));
    assert_eq!(s.doh_active, Some(true));
    assert_eq!(s.open_ports.as_deref(), Some("[22,443]"));
    assert!(s.nat_type.is_none());
}

#[test]
fn public_ip_latest() {
    let mut store = Store::open_in_memory();
    assert!(store.latest_public_ip().is_none());
    store.insert_public_ip(100, Some("203.0.113.4"));
    store.insert_public_ip(200, Some("203.0.113.9"));
    assert_eq!(store.latest_public_ip().as_deref(), Some("203.0.113.9"));
    // An address row is no posture.
    assert!(store.latest_security().is_none());
}

#[test]
fn dns_samples_and_comparison() {
    let mut store = Store::open_in_memory();
    // Cloudflare: 10 and 20 ms. Google: 30 ms and a failure.
    store.insert_dns_sample(1, "1.1.1.1", "example.com", Some(nano(10.0)), true, None);
    store.insert_dns_sample(2, "1.1.1.1", "example.com", Some(nano(20.0)), true, None);
    store.insert_dns_sample(3, "8.8.8.8", "example.com", Some(nano(30.0)), true, None);
    store.insert_dns_sample(4, "8.8.8.8", "example.com", None, false, None);

    let found = store.dns_comparison(0);
    assert_eq!(found.len(), 2);
    // The fastest mean first.
    assert_eq!(found[0].resolver, "1.1.1.1");
    assert_eq!(found[0].avg_ms, Some(nano(15.0)));
    assert_eq!(found[0].failures, 0);
    assert_eq!(found[1].resolver, "8.8.8.8");
    assert_eq!(found[1].failures, 1);
}

#[test]
fn a_resolver_without_any_time_is_listed_last() {
    let mut store = Store::open_in_memory();
    store.insert_dns_sample(1, "8.8.8.8", "example.com", None, false, None);
    store.insert_dns_sample(2, "1.1.1.1", "example.com", Some(nano(10.0)), true, None);
    let found = store.dns_comparison(0);
    assert_eq!(found.len(), 2);
    assert_eq!(found[0].resolver, "1.1.1.1");
    assert_eq!((found[1].resolver.as_str(), found[1].avg_ms), ("8.8.8.8", None));
}

#[test]
fn reliability_disconnects_excludes_gap_outages() {
    let mut store = Store::open_in_memory();
    let a = store.open_outage(1000, Some(OUTAGE_CAUSE_REAL)).unwrap();
    store.close_outage(a, 2000, Some(1000));
    let b = store.open_outage(3000, Some(OUTAGE_CAUSE_GAP)).unwrap();
    store.close_outage(b, 4000, Some(1000));
    assert_eq!(store.reliability_since(0).disconnects, 1);
    store.open_outage(5000, None).unwrap();
    assert_eq!(store.reliability_since(0).disconnects, 2);
}

#[test]
fn set_and_get_setting_f64() {
    let mut store = Store::open_in_memory();
    assert!(store.get_setting_f64("isp.plan_down_mbps").is_none());
    store.set_setting("isp.plan_down_mbps", "300", 0);
    store.set_setting("isp.plan_down_mbps", "500.5", 1);
    assert_eq!(store.get_setting_f64("isp.plan_down_mbps"), Some(reading(500.5)));
    assert_eq!(store.get_setting_i64("isp.plan_down_mbps"), None);
    assert_eq!(store.settings.len(), 1);
    assert_eq!(store.settings[0].updated_at, 1);
}

#[test]
fn seed_default_settings_is_idempotent() {
    let mut store = Store::open_in_memory();
    store.seed_default_settings(0);
    store.seed_default_settings(0);
    assert_eq!(store.settings.len(), 3);
    assert_eq!(store.get_setting("retention.raw_days").as_deref(), Some("7"));
    assert_eq!(store.get_setting("rollups.global_enabled").as_deref(), Some("true"));
    assert_eq!(store.get_setting("rollups.per_target_enabled").as_deref(), Some("false"));
}

#[test]
fn seeding_keeps_what_the_user_set() {
    let mut store = Store::open_in_memory();
    store.set_setting("retention.raw_days", "30", 5);
    store.seed_default_settings(9);
    assert_eq!(store.get_setting_i64("retention.raw_days"), Some(30));
    assert_eq!(store.settings[0].updated_at, 5);
    assert_eq!(store.settings[1].updated_at, 9);
}

#[test]
fn connectivity_and_reliability() {
    let mut store = Store::open_in_memory();
    store.seed_default_targets(0);
    // Three up, one down.
    for (ts, up) in [(100, true), (200, true), (300, false), (400, true)] {
        store.insert_connectivity_sample(sample(ts, 1, 4, up, 20.0)).unwrap();
    }

    let recent = store.recent_connectivity(10);
    assert_eq!(recent.len(), 4);
    assert_eq!(recent[0].ts, 400, "newest first");

    let r = store.reliability_since(0);
    assert_eq!(r.samples, 4);
    assert_eq!(r.up_samples, 3);
    assert_eq!(r.uptime_pct, nano(75.0));
    assert_eq!(r.avg_latency_ms, Some(nano(20.0)));
}

#[test]
fn csv_field_escapes_specials() {
    assert_eq!(csv_field("plain"), "plain");
    assert_eq!(csv_field("a,b"), "\"a,b\"");
    assert_eq!(csv_field("say \"hi\""), "\"say \"\"hi\"\"\"");
}

#[test]
fn csv_field_quotes_line_breaks() {
    assert_eq!(csv_field("a\nb"), "\"a\nb\"");
    assert_eq!(csv_field("a\rb"), "\"a\rb\"");
    assert_eq!(csv_field(""), "");
}

#[test]
fn events_timeline_and_csv() {
    let mut store = Store::open_in_memory();
    store.insert_event(100, "disconnect", "critical", None, None).unwrap();
    store
        .insert_event(200, "reconnect", "info", Some(3000), Some("{\"note\":\"a,b\"}"))
        .unwrap();

    let events = store.recent_events(10);
    assert_eq!(events.len(), 2);
    assert_eq!(events[0].ts, 200, "newest first");
    assert_eq!(events[0].kind, "reconnect");

    let csv = store.export_events_csv(0);
    let lines: Vec<&str> = csv.lines().collect();
    assert_eq!(lines[0], "ts,kind,severity,duration_ms,payload");
    // The oldest first; a payload with a comma is quoted.
    assert!(lines[1].starts_with("100,disconnect,critical,,"));
    assert!(lines[2].contains("\"{\"\"note\"\":\"\"a,b\"\"}\""), "got: {}", lines[2]);
}

#[test]
fn connectivity_csv_has_header_and_rows() {
    let mut store = Store::open_in_memory();
    store.seed_default_targets(0);
    store
        .insert_connectivity_sample(NewConnectivitySample {
            ts: 500,
            target_id: 1,
            ip_version: 4,
            sent: 5,
            received: 5,
            loss_pct: 0,
            rtt_min: Some(nano(10.0)),
            rtt_avg: Some(nano(12.0)),
            rtt_max: Some(nano(15.0)),
            rtt_jitter: Some(nano(1.0)),
            up: true,
        })
        .unwrap();
    let csv = store.export_connectivity_csv(0);
    let lines: Vec<&str> = csv.lines().collect();
    assert_eq!(lines.len(), 2);
    assert!(lines[1].starts_with("500,1,4,5,5,0"));
    assert_eq!(
        lines[0],
        "ts,target_id,ip_version,sent,received,loss_pct,rtt_min,rtt_avg,rtt_max,rtt_jitter,up"
    );
    assert_eq!(lines[1], "500,1,4,5,5,0,10,12,15,1,1");
}

#[test]
fn reliability_ignores_a_dead_stack() {
    // Two cycles, each with two reachable targets and one that is always down.
    let mut store = Store::open_in_memory();
    store.seed_default_targets(0);
    let make = |ts, target_id, ip_version, up: bool| NewConnectivitySample {
        rtt_max: if up { Some(nano(15.0)) } else { None },
        rtt_jitter: if up { Some(nano(1.0)) } else { None },
        ..sample(ts, target_id, ip_version, up, 12.0)
    };
    for ts in [1000, 2000] {
        store.insert_connectivity_sample(make(ts, 1, 4, true)).unwrap();
        store.insert_connectivity_sample(make(ts, 2, 4, true)).unwrap();
        store.insert_connectivity_sample(make(ts, 3, 6, false)).unwrap();
    }
    let r = store.reliability_since(0);
    assert_eq!(r.samples, 2, "two cycles");
    assert_eq!(r.up_samples, 2, "both cycles had a reachable target");
    assert_eq!(r.uptime_pct, nano(100.0), "the internet was up every cycle");
    assert_eq!(r.avg_loss_pct, Some(0), "the dead target does not count");
    assert_eq!(r.avg_latency_ms, Some(nano(12.0)));
}

#[test]
fn outage_open_and_close() {
    let mut store = Store::open_in_memory();
    assert!(store.current_open_outage().is_none());

    let id = store.open_outage(1000, Some("all targets down")).unwrap();
    let open = store.current_open_outage().unwrap();
    assert_eq!(open.id, id);
    assert!(open.ts_end.is_none());

    store.close_outage(id, 4000, Some(1200));
    assert!(store.current_open_outage().is_none());
    let closed = store.recent_outages(1);
    assert_eq!(closed[0].ts_end, Some(4000));
    assert_eq!(closed[0].duration_ms, Some(3000));
    assert_eq!(closed[0].reconnect_ms, Some(1200));

    let r = store.reliability_since(0);
    assert_eq!(r.disconnects, 1);
}

#[test]
fn percentile_interpolates() {
    let v = vec![nano(10.0), nano(20.0), nano(30.0), nano(40.0), nano(50.0)];
    assert_eq!(percentile(&v, 50), nano(30.0));
    assert_eq!(percentile(&v, 0), nano(10.0));
    assert_eq!(percentile(&v, 100), nano(50.0));
    // Rank 3.8 of five points.
    assert_eq!(percentile(&v, 95), nano(48.0));
}

fn latency_sample(ts: i64, rtt: f64) -> NewConnectivitySample {
    NewConnectivitySample {
        ts,
        target_id: 1,
        ip_version: 4,
        sent: 5,
        received: 5,
        loss_pct: 0,
        rtt_min: Some(nano(rtt)),
        rtt_avg: Some(nano(rtt)),
        rtt_max: Some(nano(rtt)),
        rtt_jitter: Some(nano(1.0)),
        up: true,
    }
}

#[test]
fn maintain_rolls_up_and_prunes() {
    let mut store = Store::open_in_memory();
    store.seed_default_settings(0);
    store.seed_default_targets(0);
    for (off, rtt) in [(0, 10.0), (60_000, 20.0), (120_000, 30.0)] {
        store.insert_connectivity_sample(latency_sample(off, rtt)).unwrap();
    }

    // Well past that hour, and within the retention of seven days.
    let written = store.maintain(5 * 3_600_000);
    assert!(written >= 2, "expected hour rollups");

    let latency = store.rollups("latency", "hour", 0);
    assert_eq!(latency.len(), 1);
    assert_eq!(latency[0].bucket_ts, 0);
    assert_eq!(latency[0].count, 3);
    assert_eq!(latency[0].avg, nano(20.0));
    assert_eq!(latency[0].p50, nano(20.0));
    assert_eq!(latency[0].p95, nano(29.0));
    assert_eq!((latency[0].min, latency[0].max), (nano(10.0), nano(30.0)));

    assert_eq!(store.recent_connectivity(10).len(), 3);
}

#[test]
fn maintain_prunes_old_raw_but_keeps_rollup() {
    let mut store = Store::open_in_memory();
    // Retention of no days prunes everything up to the current hour.
    store.seed_default_targets(0);
    store.set_setting("retention.raw_days", "0", 0);
    let sample = NewConnectivitySample { rtt_jitter: Some(0), ..latency_sample(0, 15.0) };
    store.insert_connectivity_sample(sample).unwrap();

    store.maintain(5 * 3_600_000);

    assert_eq!(store.rollups("latency", "hour", 0).len(), 1);
    assert_eq!(store.recent_connectivity(10).len(), 0);
}

#[test]
fn maintaining_twice_keeps_the_rollups() {
    let mut store = Store::open_in_memory();
    store.seed_default_targets(0);
    store.set_setting("retention.raw_days", "0", 0);
    store.insert_connectivity_sample(latency_sample(0, 15.0)).unwrap();
    store.maintain(5 * 3_600_000);
    let once = store.rollups("latency", "hour", 0);
    store.maintain(6 * 3_600_000);
    assert_eq!(store.rollups("latency", "hour", 0), once);
    assert_eq!(once.len(), 1);
}

#[test]
fn a_pruned_day_keeps_its_rollup() {
    const H: i64 = 3_600_000;
    let mut store = Store::open_in_memory();
    store.seed_default_targets(0);
    store.set_setting("retention.raw_days", "1", 0);
    store.insert_connectivity_sample(latency_sample(0, 10.0)).unwrap();
    store.insert_connectivity_sample(latency_sample(23 * H, 30.0)).unwrap();
    assert_eq!(store.maintain(29 * H), 9);
    let day = store.rollups("latency", "day", 0);
    assert_eq!(day.len(), 1);
    assert_eq!((day[0].bucket_ts, day[0].count, day[0].avg), (0, 2, nano(20.0)));
    assert_eq!(store.recent_connectivity(10).len(), 1, "half of the day is pruned");

    // The hour of the sample that is left is written again, the day is not.
    assert_eq!(store.maintain(30 * H), 3);
    assert_eq!(store.rollups("latency", "day", 0), day);
    assert_eq!(store.rollups("latency", "hour", 0).len(), 2);

    // Nor does it matter how long samples are kept from then on.
    store.set_setting("retention.raw_days", "7", 0);
    assert_eq!(store.maintain(31 * H), 3);
    assert_eq!(store.rollups("latency", "day", 0), day);
}

#[test]
fn a_deleted_target_leaves_the_rollups() {
    let mut store = Store::open_in_memory();
    store.seed_default_targets(0);
    let other = NewConnectivitySample { target_id: 2, ..latency_sample(1, 30.0) };
    store.insert_connectivity_sample(latency_sample(0, 10.0)).unwrap();
    store.insert_connectivity_sample(other).unwrap();
    store.maintain(5 * 3_600_000);
    assert_eq!(store.rollups("latency", "hour", 0)[0].count, 2);
    store.delete_target(2);
    assert_eq!(store.maintain(5 * 3_600_000), 3);
    let hour = store.rollups("latency", "hour", 0);
    assert_eq!((hour[0].count, hour[0].avg, hour[0].pruned), (1, nano(10.0), false));
}

#[test]
fn an_open_bucket_is_not_rolled_up() {
    let mut store = Store::open_in_memory();
    store.seed_default_targets(0);
    store.insert_connectivity_sample(latency_sample(3_600_000, 15.0)).unwrap();
    store.maintain(3_600_000 + 1);
    assert!(store.rollups("latency", "hour", 0).is_empty());
    assert!(store.rollups("no such metric", "hour", 0).is_empty());
}

fn bare_rollup(target_id: i64) -> Rollup {
    Rollup {
        metric: Metric::Latency,
        target_id,
        bucket: Bucket::Hour,
        bucket_ts: 0,
        count: 1,
        min: 0,
        avg: 0,
        max: 0,
        p50: 0,
        p95: 0,
        sum: 0,
        pruned: false,
    }
}

#[test]
fn rollup_bucket_is_unique_per_series() {
    let mut store = Store::open_in_memory();
    store.rollups.push(bare_rollup(0));
    assert!(store.is_wf());
    // A second row of the same bucket and series collides.
    store.rollups.push(bare_rollup(0));
    assert!(!store.is_wf());
    // A series of one target is another row.
    store.rollups.pop();
    store.rollups.push(bare_rollup(1));
    assert!(store.is_wf());
}

#[test]
fn tables_from_elsewhere_are_tested() {
    let mut store = Store::open_in_memory();
    store.seed_default_targets(0);
    assert!(store.is_wf());
    store.targets[1].id = 1;
    assert!(!store.is_wf(), "identifiers must grow");
    store.targets[1].id = 2;
    store.settings.push(Setting { key: "a".into(), value: "1".into(), updated_at: 0 });
    assert!(store.is_wf());
    store.settings.push(Setting { key: "a".into(), value: "2".into(), updated_at: 0 });
    assert!(!store.is_wf(), "keys must differ");
    store.settings.pop();
    store.insert_connectivity_sample(sample(1, 1, 4, true, 1.0)).unwrap();
    store.targets.remove(0);
    assert!(!store.is_wf(), "a sample needs its target");
}

#[test]
fn limits_and_the_newest_rows() {
    let mut store = Store::open_in_memory();
    for ts in [300, 100, 200] {
        store.insert_event(ts, "roam", "info", None, None).unwrap();
    }
    let stamps = |limit: i64| -> Vec<i64> { store.recent_events(limit).iter().map(|e| e.ts).collect() };
    assert_eq!(stamps(2), vec![300, 200]);
    assert_eq!(stamps(0), Vec::<i64>::new());
    assert_eq!(stamps(-1), vec![300, 200, 100]);
}

#[test]
fn latest_sample_of_each_enabled_target() {
    let mut store = Store::open_in_memory();
    store.seed_default_targets(0);
    store.set_target_enabled(2, false);
    store.insert_connectivity_sample(sample(100, 1, 4, true, 20.0)).unwrap();
    store.insert_connectivity_sample(sample(200, 1, 4, false, 20.0)).unwrap();
    let v = store.latest_per_target();
    assert_eq!(v.len(), 2);
    assert_eq!((v[0].id, v[0].up, v[0].ts), (1, Some(false), Some(200)));
    assert_eq!((v[1].id, v[1].up, v[1].ts), (3, None, None));
}
