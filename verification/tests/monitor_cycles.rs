//! The monitor: cycles, outages, the schedule and what each job stores.

use tracium::bandwidth::{sample, IfaceDelta};
use tracium::devices::ArpEntry;
use tracium::dns::{dns_outcome, DnsCacheStats};
use tracium::monitor::{cycle_status, goes_on, now_ms, Monitor, MonitorConfig, Schedule};
use tracium::number::Reading;
use tracium::ping::PingResult;
use tracium::probe::{
    attempt_state, cycle_outcome, down, millis_of, summarize, wants_address, Attempt, Connect,
    ProbeConfig, ProbeOutcome,
};
use tracium::qoe::Qoe;
use tracium::rows::{NewTarget, OUTAGE_CAUSE_GAP, OUTAGE_CAUSE_REAL};
use tracium::sampling::{asn_lookups, dns_host, dns_resolvers, Posture};
use tracium::security::VpnStatus;
use tracium::speedtest::{bufferbloat, first_result, grade, run_speedtest_bufferbloat, LsResult, LsServer};
use tracium::store::Store;
use tracium::traceroute::{trace_result, Hop};
use tracium::wifi::WifiInfo;
use tracium::asn::AsInfo;

fn nano(x: f64) -> u64 {
    (x * 1e9).round() as u64
}

fn reading(x: f64) -> Reading {
    Reading { billionths: (x * 1e9).round() as i64 }
}

fn cfg(port: u16) -> MonitorConfig {
    MonitorConfig {
        interval_ms: 1,
        port,
        probe: ProbeConfig { count: 3, timeout_ms: 500, gap_ms: 0, ip_version: None },
        maintenance_interval_ms: 3_600_000,
        dns_interval_ms: 60_000,
        dns_timeout_ms: 300,
        public_ip_interval_ms: 600_000,
        public_ip_timeout_ms: 300,
        security_interval_ms: 300_000,
        security_timeout_ms: 300,
        wifi_interval_ms: 30_000,
        devices_interval_ms: 60_000,
        traceroute_interval_ms: 600_000,
        traceroute_target: "1.1.1.1".to_string(),
        traceroute_max_hops: 30,
        traceroute_timeout_ms: 25_000,
    }
}

fn local_monitor(port: u16) -> Monitor {
    let mut store = Store::open_in_memory();
    store
        .add_target(NewTarget {
            label: "local".into(),
            host: "127.0.0.1".into(),
            kind: "internet".into(),
            ip_version: Some(4),
            enabled: true,
            created_at: 0,
        })
        .unwrap();
    Monitor::new(store, cfg(port))
}

/// Three quick answers of the loopback interface.
fn quick() -> ProbeOutcome {
    cycle_outcome(3, true, &[nano(0.1), nano(0.2), nano(0.1)])
}

#[test]
fn tick_online_persists_and_reports() {
    let mut mon = local_monitor(443);
    assert!(mon.store.room_for(2));
    assert!(mon.store.spans_fit_at(1000));
    let update = mon.tick(1000, &vec![quick()]);

    assert!(update.online);
    assert_eq!(update.targets_up, 1);
    assert_eq!(update.targets_total, 1);
    assert_eq!(update.best_latency_ms, Some(nano(0.4) / 3));
    assert!(!update.outage_ongoing);
    let qoe = update.qoe.expect("scores while online");
    assert!(qoe.gaming > nano(90.0), "gaming {}", qoe.gaming);

    assert_eq!(mon.store.recent_connectivity(10).len(), 1);
    assert!(mon.store.current_open_outage().is_none());
}

#[test]
fn outage_opens_when_down_and_closes_on_recovery() {
    let mut mon = local_monitor(443);

    // Down: an outage opens.
    let u1 = mon.tick(1000, &vec![down(3)]);
    assert!(!u1.online);
    assert!(u1.outage_ongoing);
    assert!(mon.store.current_open_outage().is_some(), "outage should be open");
    assert!(mon.store.events.is_empty(), "an outage is noted once it is over");

    // Up again: it closes.
    let u2 = mon.tick(4000, &vec![quick()]);
    assert!(u2.online);
    assert!(mon.store.current_open_outage().is_none(), "outage should close");

    let r = mon.store.reliability_since(0);
    assert_eq!(r.disconnects, 1);
    assert_eq!(r.samples, 2);
    let kinds: Vec<&str> = mon.store.events.iter().map(|e| e.kind.as_str()).collect();
    assert_eq!(kinds, vec!["disconnect", "reconnect"]);
    assert_eq!((mon.store.events[0].ts, mon.store.events[1].ts), (1000, 4000));
    assert_eq!(mon.store.events[0].severity, "critical");
    assert_eq!(mon.store.events[1].duration_ms, Some(3000));
    assert_eq!(mon.store.outages[0].duration_ms, Some(3000));
    assert_eq!(mon.store.outages[0].cause.as_deref(), Some(OUTAGE_CAUSE_REAL));
}

#[test]
fn outage_closes_as_gap_when_mostly_no_samples_in_range() {
    let mut mon = local_monitor(443);
    assert!(mon.tick(1000, &vec![down(3)]).outage_ongoing);
    // Two hours without a cycle: the device was suspended.
    assert!(mon.tick(1000 + 7_200_000, &vec![quick()]).online);

    let outages = mon.store.recent_outages(1);
    assert_eq!(outages[0].cause.as_deref(), Some(OUTAGE_CAUSE_GAP));
    assert_eq!(mon.store.reliability_since(0).disconnects, 0);
    assert_eq!(mon.store.events[0].kind, "disconnect");
    assert_eq!(mon.store.events[0].severity, "info");
    assert_eq!(mon.store.events[1].kind, "reconnect");
    assert_eq!(mon.store.events[1].severity, "info");
}

#[test]
fn a_dead_target_changes_only_the_number_of_targets() {
    let alive = vec![quick(), cycle_outcome(3, true, &[nano(9.0)])];
    let whole = cycle_status(7, &alive);
    for at in 0..3 {
        let mut with = alive.clone();
        with.insert(at, down(3));
        let mut want = whole;
        want.targets_total += 1;
        assert_eq!(cycle_status(7, &with), want);
    }
}

#[test]
fn one_reachable_target_keeps_the_internet_up() {
    let mut store = Store::open_in_memory();
    store.seed_default_targets(0);
    let mut mon = Monitor::new(store, cfg(443));
    let tasks = mon.probe_targets();
    assert_eq!(tasks.len(), 3);
    assert_eq!((tasks[2].target_id, tasks[2].ip_version), (3, 6));
    let update = mon.tick(1000, &vec![down(3), quick(), down(3)]);
    assert!(update.online);
    assert_eq!(update.targets_up, 1);
    assert_eq!(update.avg_loss_pct, Some(0));
    assert!(mon.store.outages.is_empty());
}

#[test]
fn default_configuration() {
    let c = MonitorConfig::default();
    assert_eq!((c.interval_ms, c.port), (15_000, 443));
    assert_eq!(c.dns_interval_ms, 60_000);
    assert_eq!(c.traceroute_target, "1.1.1.1");
}

#[test]
fn jobs_run_at_once_and_then_at_their_interval() {
    let config = cfg(443);
    let now: i64 = 1_700_000_000_000;
    let mut s = Schedule::new(now);
    let first = s.run(now, &config);
    assert!(first.dns && first.public_ip && first.security && first.traceroute);
    assert!(first.devices && first.wifi);
    let soon = s.run(now + 1, &config);
    assert!(!soon.dns && !soon.wifi && !soon.traceroute);
    let later = s.run(now + 30_000, &config);
    assert!(later.wifi && !later.dns);
}

#[test]
fn clock_readings_become_milliseconds() {
    assert_eq!(now_ms(Some(1_700_000_000_123)), 1_700_000_000_123);
    assert_eq!(now_ms(None), 0);
}

#[test]
fn jitter_is_mean_consecutive_diff() {
    // 10, 14, 12: the differences are 4 and 2.
    let out = summarize(3, &[nano(10.0), nano(14.0), nano(12.0)]);
    assert_eq!(out.rtt_jitter, Some(nano(3.0)));
    assert_eq!(out.rtt_min, Some(nano(10.0)));
    assert_eq!(out.rtt_max, Some(nano(14.0)));
    assert_eq!(out.rtt_avg, Some(nano(12.0)));
}

#[test]
fn loss_is_the_share_of_lost_attempts() {
    let out = summarize(4, &[nano(10.0)]);
    assert_eq!((out.sent, out.received), (4, 1));
    assert_eq!(out.loss_pct, nano(75.0));
    assert_eq!(out.rtt_jitter, None);
    assert!(out.up);
    let none = cycle_outcome(2, false, &[]);
    assert!(!none.up);
    assert_eq!(none.loss_pct, nano(100.0));
    assert_eq!(none.rtt_avg, None);
}

#[test]
fn an_attempt_tries_addresses_until_one_answers() {
    assert_eq!(attempt_state(&[]), Attempt::Open);
    assert_eq!(attempt_state(&[Connect::Refused]), Attempt::Open);
    assert_eq!(
        attempt_state(&[Connect::Refused, Connect::Connected { nanos: 2_500_000 }]),
        Attempt::Hit { rtt: nano(2.5) }
    );
    assert_eq!(attempt_state(&[Connect::TimedOut]), Attempt::Lost);
    assert_eq!(millis_of(1_000_000), nano(1.0));
    assert!(wants_address(None, true) && wants_address(Some(4), true));
    assert!(!wants_address(Some(6), true) && wants_address(Some(6), false));
}

#[test]
fn pristine_connection_scores_near_perfect() {
    let q = Qoe::score(nano(8.0), nano(1.0), 0);
    assert_eq!(q.gaming, nano(100.0));
    assert_eq!(q.voip, nano(100.0));
    assert_eq!(q.web, nano(100.0));
}

#[test]
fn loss_tanks_realtime_scores() {
    let q = Qoe::score(nano(30.0), nano(5.0), nano(5.0));
    assert!(q.gaming < nano(60.0), "gaming should suffer badly: {}", q.gaming);
    assert!(q.voip < q.streaming, "voip is more sensitive to loss than streaming");
}

#[test]
fn high_latency_hurts_gaming_more_than_streaming() {
    let q = Qoe::score(nano(250.0), nano(5.0), 0);
    assert!(q.gaming < q.streaming);
    assert!(q.streaming > nano(90.0), "streaming tolerates latency: {}", q.streaming);
}

#[test]
fn scores_never_leave_bounds() {
    let q = Qoe::score(nano(5000.0), nano(500.0), nano(100.0));
    for s in [q.gaming, q.voip, q.video_call, q.streaming, q.web] {
        assert!(s <= nano(100.0), "out of bounds: {}", s);
    }
}

#[test]
fn grade_thresholds() {
    assert_eq!(grade(0), "A");
    assert_eq!(grade(nano(29.9)), "A");
    assert_eq!(grade(nano(30.0)), "B");
    assert_eq!(grade(nano(59.9)), "B");
    assert_eq!(grade(nano(60.0)), "C");
    assert_eq!(grade(nano(150.0)), "D");
    assert_eq!(grade(nano(500.0)), "F");
}

#[test]
fn bufferbloat_needs_both_latencies() {
    assert_eq!(bufferbloat(None, &[nano(5.0)]), None);
    assert_eq!(bufferbloat(Some(nano(5.0)), &[]), None);
    let b = bufferbloat(Some(nano(10.0)), &[nano(60.0), nano(80.0)]).unwrap();
    assert_eq!((b.loaded_ms, b.increase_ms), (nano(70.0), nano(60.0)));
    assert_eq!(b.grade, "C");
    let none = run_speedtest_bufferbloat(Some(nano(80.0)), &[nano(70.0)], None);
    assert_eq!(none.bufferbloat.unwrap().increase_ms, 0);
    assert_eq!(none.speed, None);
}

#[test]
fn the_first_speed_result_counts() {
    assert_eq!(first_result(vec![]), None);
    let r = first_result(vec![LsResult {
        ping: Some(reading(12.3)),
        jitter: Some(reading(1.4)),
        download: Some(reading(95.4)),
        upload: Some(reading(10.25)),
        server: Some(LsServer { name: Some("Community Server X".into()) }),
    }])
    .unwrap();
    assert_eq!(r.download_mbps, Some(reading(95.4)));
    assert_eq!(r.server.as_deref(), Some("Community Server X"));
}

#[test]
fn bandwidth_rates_are_bits_per_second() {
    let out = sample(
        vec![
            IfaceDelta { iface: "eth0".into(), rx_bytes: 1000, tx_bytes: 500 },
            IfaceDelta { iface: "eth1".into(), rx_bytes: 0, tx_bytes: 0 },
        ],
        2_000_000_000,
    );
    assert_eq!((out.rx_bps, out.tx_bps), (4000, 2000));
    assert_eq!(out.per_iface.len(), 1);
    let mut mon = local_monitor(443);
    mon.record_bandwidth(10, &out);
    assert_eq!(mon.store.latest_bandwidth().unwrap().rx_bps, 4000);
    assert_eq!(mon.store.bandwidth_totals(0).unwrap().rx_bytes, 1000);
}

#[test]
fn sampler_produces_a_reading() {
    // However short the time, the window is positive.
    let out = sample(vec![], 0);
    assert!(out.nanos > 0);
    assert_eq!((out.rx_bps, out.tx_bps), (0, 0));
}

#[test]
fn dns_rounds_and_the_cache_rate() {
    let mut mon = local_monitor(443);
    assert_eq!(dns_resolvers(), vec!["1.1.1.1", "8.8.8.8", "9.9.9.9"]);
    let round = vec![dns_outcome("1.1.1.1", dns_host(0), Some(1), 12_000_000)];
    let cache = Some(DnsCacheStats { hits: 30, misses: 70 });
    // By default the counters are not kept.
    mon.sample_dns(1, &round, cache);
    assert_eq!(mon.store.get_setting("dns.cache_hits"), None);
    assert!(!mon.wants_cache_stats());

    mon.store.set_setting("dns.cache_stats", "1", 2);
    assert!(mon.wants_cache_stats());
    mon.sample_dns(3, &round, cache);
    assert_eq!(mon.store.get_setting_i64("dns.cache_hits"), Some(30));
    mon.sample_dns(4, &round, Some(DnsCacheStats { hits: 60, misses: 80 }));
    assert_eq!(mon.store.get_setting("dns.cache_hit_rate").as_deref(), Some("75"));
    assert_eq!(mon.store.dns.len(), 3);
    assert_eq!(mon.store.dns_comparison(0)[0].avg_ms, Some(nano(12.0)));
}

#[test]
fn the_gateway_and_devices_are_stored() {
    let mut mon = local_monitor(443);
    mon.sample_gateway(5, None);
    assert!(mon.store.latest_gateway().is_none());
    mon.sample_gateway(
        6,
        Some(PingResult {
            sent: 3,
            received: 3,
            loss_pct: reading(0.0),
            rtt_min: None,
            rtt_avg: Some(reading(0.8)),
            rtt_max: None,
        }),
    );
    assert_eq!(mon.store.latest_gateway().unwrap().gateway_rtt_ms, Some(reading(0.8)));
    let seen = vec![
        ArpEntry { ip: "192.168.1.1".into(), mac: "aa:bb:cc:dd:ee:ff".into() },
        ArpEntry { ip: "192.168.1.2".into(), mac: "aa:bb:cc:dd:ee:ff".into() },
    ];
    mon.sample_devices(7, &seen);
    assert_eq!(mon.store.list_devices().len(), 1);
    assert_eq!(mon.store.list_devices()[0].ip.as_deref(), Some("192.168.1.2"));
}

fn link(bssid: &str) -> WifiInfo {
    WifiInfo {
        ssid: Some("HomeNet".into()),
        bssid: Some(bssid.into()),
        rssi_dbm: Some(-45),
        quality_pct: None,
        link_mbps: Some(reading(300.0)),
        freq_mhz: Some(5180),
        channel: Some(36),
        band: Some("5".into()),
    }
}

#[test]
fn roaming_is_an_event() {
    let mut mon = local_monitor(443);
    mon.sample_wifi(1, None);
    assert!(mon.store.wifi.is_empty());
    mon.sample_wifi(2, Some(link("aa")));
    mon.sample_wifi(3, Some(link("aa")));
    assert!(mon.store.events.is_empty());
    mon.sample_wifi(4, Some(link("bb")));
    assert_eq!(mon.store.events.len(), 1);
    assert_eq!(mon.store.events[0].kind, "roam");
    assert_eq!(mon.store.events[0].payload.as_deref(), Some("{\"from\":\"aa\",\"to\":\"bb\"}"));
}

#[test]
fn a_new_public_address_is_an_event() {
    let mut mon = local_monitor(443);
    mon.sample_public_ip(1, Some("203.0.113.4".into()));
    mon.sample_public_ip(2, Some("203.0.113.4".into()));
    assert!(mon.store.events.is_empty());
    mon.sample_public_ip(3, Some("203.0.113.9".into()));
    assert_eq!(mon.store.events.len(), 1);
    assert_eq!(mon.store.latest_public_ip().as_deref(), Some("203.0.113.9"));
}

#[test]
fn a_new_route_is_an_event() {
    let mut mon = local_monitor(443);
    let first = trace_result("1.1.1.1", " 1  192.168.1.1  1.0 ms\n 2  8.8.4.4  2.0 ms", false).unwrap();
    let wanted = asn_lookups(&first.hops);
    assert_eq!(wanted, vec!["192.168.1.1".to_string(), "8.8.4.4".to_string()]);
    let found = vec![None, Some(AsInfo { asn: "AS15169".into(), name: Some("GOOGLE".into()) })];
    mon.sample_traceroute(1, Some(first), &vec![None, Some(reading(40.0))], &found);
    assert!(mon.store.events.is_empty());
    let stored = mon.store.latest_traceroute().unwrap();
    assert_eq!(stored.hops[1].asn.as_deref(), Some("AS15169"));
    assert_eq!(stored.hops[1].as_name.as_deref(), Some("GOOGLE"));
    assert_eq!((stored.hops[0].loss_pct, stored.hops[1].loss_pct), (None, Some(reading(40.0))));

    let second = trace_result("1.1.1.1", " 1  192.168.1.1  1.0 ms\n 2  8.8.8.8  2.0 ms", false).unwrap();
    mon.sample_traceroute(2, Some(second), &vec![], &vec![None, None]);
    assert_eq!(mon.store.events.len(), 1);
    assert_eq!(mon.store.events[0].kind, "route_change");
    mon.sample_traceroute(3, None, &vec![], &vec![]);
    assert_eq!(mon.store.traceroutes.len(), 2);
}

#[test]
fn each_address_is_looked_up_once() {
    let hops = vec![
        Hop { hop_no: 1, ip: Some("10.0.0.1".into()), rtt_ms: None },
        Hop { hop_no: 2, ip: None, rtt_ms: None },
        Hop { hop_no: 3, ip: Some("10.0.0.1".into()), rtt_ms: None },
    ];
    assert_eq!(asn_lookups(&hops), vec!["10.0.0.1".to_string()]);
}

#[test]
fn a_posture_lists_its_open_ports() {
    let mut mon = local_monitor(443);
    mon.sample_public_ip(1, Some("203.0.113.4".into()));
    mon.sample_security(
        2,
        Posture {
            nat_type: None,
            upnp_enabled: None,
            firewall_active: Some(true),
            vpn: Some(VpnStatus { active: false, interfaces: vec![] }),
            doh: true,
            dot: false,
            open_ports: vec![22, 443],
        },
    );
    let s = mon.store.latest_security().unwrap();
    assert_eq!(s.open_ports.as_deref(), Some("[22,443]"));
    assert_eq!(s.public_ip.as_deref(), Some("203.0.113.4"));
    assert_eq!((s.doh_active, s.dot_active), (Some(true), Some(false)));
    assert_eq!(s.vpn_detected, Some(false));
}

#[test]
fn only_a_closed_sink_ends_the_loop() {
    assert!(goes_on(Some(true)));
    assert!(!goes_on(Some(false)));
    assert!(goes_on(None));
}
