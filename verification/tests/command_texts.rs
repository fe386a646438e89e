//! What the commands print, and the dashboard.

use std::collections::VecDeque;

use tracium::display::{
    export_start, fmt_dur, fmt_ts, human, push_sample, quotient_of, route_changed, sparkline, tri, window_secs,
    window_start, SPARK_CAPACITY,
};
use tracium::number::{decimal_of, Reading};
use tracium::report::{speed_text, speedtest_program};
use tracium::rows::{NewConnectivitySample, SecuritySnapshot, TracerouteHop, WifiSample};
use tracium::speedtest::{Bufferbloat, SpeedAndBloat, SpeedResult};
use tracium::store::{Store, StoreError};
use tracium::watch::{
    all_sections, banner, column_widths, refresh_pause, resolve_sections, WatchState, Widths,
};

fn nano(x: f64) -> u64 {
    (x * 1e9).round() as u64
}

fn reading(x: f64) -> Reading {
    Reading { billionths: (x * 1e9).round() as i64 }
}

fn sample(ts: i64, target_id: i64, up: bool) -> NewConnectivitySample {
    NewConnectivitySample {
        ts,
        target_id,
        ip_version: 4,
        sent: 5,
        received: if up { 5 } else { 0 },
        loss_pct: if up { 0 } else { nano(100.0) },
        rtt_min: None,
        rtt_avg: if up { Some(nano(12.25)) } else { None },
        rtt_max: None,
        rtt_jitter: if up { Some(nano(2.0)) } else { None },
        up,
    }
}

#[test]
fn resolve_sections_defaults_to_everything() {
    let set = resolve_sections(None, None).enabled;
    assert_eq!(set.len(), all_sections().len());
    for k in all_sections() {
        assert!(set.contains(&k), "expected {} to be enabled by default", k);
    }
}

#[test]
fn resolve_sections_hide_removes_listed_keys() {
    let set = resolve_sections(Some("wifi,devices"), None).enabled;
    assert!(!set.contains(&"wifi"));
    assert!(!set.contains(&"devices"));
    assert!(set.contains(&"status"));
    assert_eq!(set.len(), all_sections().len() - 2);
}

#[test]
fn resolve_sections_only_restricts_to_listed_keys() {
    let set = resolve_sections(None, Some("status, reliability")).enabled;
    assert_eq!(set.len(), 2);
    assert!(set.contains(&"status"));
    assert!(set.contains(&"reliability"));
    assert!(!set.contains(&"qoe"));
}

#[test]
fn resolve_sections_unknown_key_is_ignored_not_fatal() {
    let set = resolve_sections(Some("bogus"), None);
    assert_eq!(set.enabled.len(), all_sections().len());
    assert_eq!(set.unknown, vec!["bogus".to_string()]);
}

#[test]
fn resolve_sections_only_with_unknown_key_yields_empty_for_that_key() {
    let set = resolve_sections(None, Some("bogus"));
    assert!(set.enabled.is_empty());
}

#[test]
fn blank_names_are_no_unknown_sections() {
    let set = resolve_sections(None, Some(" , qoe,,"));
    assert_eq!(set.enabled, vec!["qoe"]);
    assert!(set.unknown.is_empty());
}

#[test]
fn sparkline_empty_buffer_is_empty_string() {
    let buf = VecDeque::new();
    assert_eq!(sparkline(&buf), "");
}

#[test]
fn sparkline_all_none_renders_dots() {
    let mut buf = VecDeque::new();
    push_sample(&mut buf, None);
    push_sample(&mut buf, None);
    assert_eq!(sparkline(&buf), "··");
}

#[test]
fn sparkline_flat_line_uses_lowest_level_uniformly() {
    let mut buf = VecDeque::new();
    push_sample(&mut buf, Some(nano(10.0)));
    push_sample(&mut buf, Some(nano(10.0)));
    push_sample(&mut buf, Some(nano(10.0)));
    let s = sparkline(&buf);
    let chars: Vec<char> = s.chars().collect();
    assert_eq!(chars.len(), 3);
    assert!(chars.windows(2).all(|w| w[0] == w[1]), "flat input should render a flat sparkline");
    assert_eq!(chars[0], '▁');
}

#[test]
fn sparkline_increasing_values_increase_level() {
    let mut buf = VecDeque::new();
    push_sample(&mut buf, Some(0));
    push_sample(&mut buf, Some(nano(50.0)));
    push_sample(&mut buf, Some(nano(100.0)));
    let chars: Vec<char> = sparkline(&buf).chars().collect();
    assert_eq!(chars[0], '▁');
    assert_eq!(chars[1], '▅');
    assert_eq!(chars[2], '█');
}

#[test]
fn push_sample_caps_at_capacity() {
    let mut buf = VecDeque::new();
    for i in 0..(SPARK_CAPACITY + 10) {
        push_sample(&mut buf, Some(nano(i as f64)));
    }
    assert_eq!(buf.len(), SPARK_CAPACITY);
    // The oldest readings have left.
    assert_eq!(buf.front().copied().flatten(), Some(nano(10.0)));
}

#[test]
fn route_changed_first_call_is_never_flagged() {
    let mut prev = None;
    assert!(!route_changed(&mut prev, "hash-a"));
    assert_eq!(prev.as_deref(), Some("hash-a"));
}

#[test]
fn route_changed_same_hash_is_not_flagged() {
    let mut prev = Some("hash-a".to_string());
    assert!(!route_changed(&mut prev, "hash-a"));
}

#[test]
fn route_changed_different_hash_is_flagged() {
    let mut prev = Some("hash-a".to_string());
    assert!(route_changed(&mut prev, "hash-b"));
    assert_eq!(prev.as_deref(), Some("hash-b"));
}

#[test]
fn windows_and_durations() {
    assert_eq!(window_secs("24h"), 86_400);
    assert_eq!(window_secs(" 7d "), 604_800);
    assert_eq!(window_secs("90"), 90);
    assert_eq!(window_secs("xh"), 86_400);
    assert_eq!(window_secs("xd"), 86_400);
    assert_eq!(window_secs(""), 86_400);
    assert_eq!(window_start(10_000, 3), 7_000);
    assert_eq!(export_start(10_000, 0), 0);
    assert_eq!(export_start(10_000, 3), 7_000);
    assert_eq!(human(172_800), "2d");
    assert_eq!(human(7_200), "2h");
    assert_eq!(human(61), "61s");
    assert_eq!(fmt_dur(1_500), "2s");
    assert_eq!(fmt_dur(500), "0s");
    assert_eq!(fmt_dur(90_000), "2m");
    assert_eq!(fmt_dur(5_400_000), "1.5h");
    assert_eq!(fmt_dur(4_140_000), "1.1h");
    assert_eq!(fmt_ts(1_999), "@1");
    assert_eq!(fmt_ts(-1_999), "@-1");
    assert_eq!((tri(Some(true)), tri(Some(false)), tri(None)), ("yes", "no", "—"));
}

fn busy_store() -> Store {
    let mut store = Store::open_in_memory();
    store.seed_default_targets(0);
    store.insert_connectivity_sample(sample(1_000_000, 1, true)).unwrap();
    store.insert_connectivity_sample(sample(1_000_000, 2, false)).unwrap();
    store.insert_gateway_sample(1_000_000, Some(reading(0.8)), reading(0.0));
    store.insert_public_ip(1_000_000, Some("203.0.113.4"));
    store
}

#[test]
fn status_lists_targets_gateway_and_address() {
    let text = busy_store().status_text();
    let lines: Vec<&str> = text.lines().collect();
    assert_eq!(lines[0], "Reachability: 1/3 targets up");
    assert_eq!(lines[1], "  Cloudflare     1.1.1.1                  IPv4   12.2 ms");
    assert_eq!(lines[2], "  Google         8.8.8.8                  IPv4   down");
    assert_eq!(lines[3], "  Cloudflare v6  2606:4700:4700::1111     IPv6   —");
    assert_eq!(lines[4], "Gateway: 0.80 ms · loss 0%");
    assert_eq!(lines[5], "Public IP: 203.0.113.4");
    assert_eq!(lines.len(), 6);
}

#[test]
fn report_over_a_window() {
    let mut store = busy_store();
    store.insert_qoe(1_000_000, nano(80.0), nano(90.0), nano(70.0), nano(60.0), nano(50.0));
    let text = store.report_text(1_000_500, 3_600);
    assert_eq!(
        text,
        "Over the last 1h:\n  uptime      100.0%  (1 of 1 cycles)\n  avg latency 12.2 ms\n  \
         avg jitter  2.0 ms\n  avg loss    0.0%\n  disconnects 0\n\
         QoE (30m): gaming 80 · voip 50 · video 90 · streaming 70 · web 60\n"
    );
}

#[test]
fn dns_route_and_bandwidth_texts() {
    let mut store = Store::open_in_memory();
    assert_eq!(store.dns_text(0, 60), "no DNS samples yet\n");
    assert_eq!(store.route_text(), "no traceroute yet (needs the traceroute/tracert tool)\n");
    assert_eq!(
        store.bandwidth_text(0, 86_400).unwrap(),
        "no bandwidth samples yet\nTotal over 1d: ↓ 0.00 GB · ↑ 0.00 GB\n"
    );
    store.insert_dns_sample(1, "1.1.1.1", "example.com", Some(nano(10.0)), true, None);
    assert_eq!(
        store.dns_text(1, 60),
        "  1.1.1.1            10.0ms  1 lookups, 0 failures\n"
    );
    let hop = |n: i64, ip: Option<&str>, rtt: Option<f64>, loss: Option<f64>| TracerouteHop {
        hop_no: n,
        ip: ip.map(|s| s.to_string()),
        hostname: None,
        rtt_ms: rtt.map(reading),
        loss_pct: loss.map(reading),
        asn: None,
        as_name: None,
    };
    let hops = vec![hop(1, Some("192.168.1.1"), Some(1.2), Some(0.0)), hop(2, None, None, Some(50.0))];
    store.save_traceroute(5, "1.1.1.1", "h", &hops).unwrap();
    assert_eq!(
        store.route_text(),
        "Route to 1.1.1.1 · 2 hops\n   1  192.168.1.1          1.2ms \n   2  *                          50% loss\n"
    );
    store.insert_bandwidth_sample(1, 16_000_000, 2_500_000);
    store.insert_interface_bytes(1, "eth0", 1_500_000_000, 0);
    assert_eq!(
        store.bandwidth_text(1, 3_600).unwrap(),
        "Live: ↓ 16.0 Mbps · ↑ 2.5 Mbps\nTotal over 1h: ↓ 1.50 GB · ↑ 0.00 GB\n"
    );
    store.insert_interface_bytes(1, "eth0", i64::MAX, 0);
    assert_eq!(store.bandwidth_text(1, 3_600), Err(StoreError::Overflow));
}

#[test]
fn devices_events_and_outages_texts() {
    let mut store = Store::open_in_memory();
    assert_eq!(store.devices_text(), "no devices discovered yet\n");
    assert_eq!(store.outages_text(20), "no outages recorded\n");
    assert_eq!(store.recent_events_text(20), "");
    store.upsert_device("aa:bb:cc:dd:ee:ff", "192.168.1.1", 1000).unwrap();
    assert_eq!(store.devices_text(), "  192.168.1.1      aa:bb:cc:dd:ee:ff  \n");
    store.insert_event(5_000, "roam", "info", None, None).unwrap();
    assert_eq!(store.recent_events_text(20), "  @5  roam         info\n");
    let id = store.open_outage(1_000, None).unwrap();
    assert_eq!(store.outages_text(20), "  @1  duration ongoing  reconnect —\n");
    store.close_outage(id, 91_000, Some(2_000));
    assert_eq!(store.outages_text(20), "  @1  duration 2m  reconnect 2s\n");
}

#[test]
fn exports_by_name() {
    let store = busy_store();
    assert_eq!(store.export_csv("events", 0), Some(store.export_events_csv(0)));
    assert_eq!(store.export_csv("connectivity", 0), Some(store.export_connectivity_csv(0)));
    assert_eq!(store.export_csv("wifi", 0), None);
    let file = store.export_file("events", 2_000_000, 3_600);
    assert_eq!(file.name, "tracium-events.csv");
    assert_eq!(file.csv, store.export_events_csv(2_000_000 - 3_600_000));
    assert_eq!(store.export_file("wifi", 0, 0).csv, store.export_connectivity_csv(0));
}

#[test]
fn speed_tests_are_recorded_and_printed() {
    let mut store = Store::open_in_memory();
    assert_eq!(store.record_speedtest(1, SpeedAndBloat { speed: None, bufferbloat: None }), None);
    assert!(store.speedtests.is_empty());
    let run = SpeedAndBloat {
        speed: Some(SpeedResult {
            download_mbps: Some(reading(95.4)),
            upload_mbps: Some(reading(10.25)),
            ping_ms: Some(reading(12.3)),
            jitter_ms: Some(reading(1.4)),
            server: Some("X".into()),
        }),
        bufferbloat: Some(Bufferbloat {
            idle_ms: nano(12.0),
            loaded_ms: nano(45.0),
            increase_ms: nano(33.0),
            grade: "B".into(),
        }),
    };
    let row = store.record_speedtest(7, run).unwrap();
    assert_eq!(store.speedtest_history(1), vec![&row]);
    assert_eq!(row.loaded_latency_ms, Some(reading(45.0)));
    assert_eq!(
        speed_text(&row),
        "↓ 95.4 Mbps · ↑ 10.2 Mbps · ping 12 ms · bufferbloat B\nserver: X\n"
    );
    assert_eq!(speedtest_program(Some("/opt/x"), None), "/opt/x");
    assert_eq!(speedtest_program(Some(""), Some("/app/librespeed-cli")), "/app/librespeed-cli");
    assert_eq!(speedtest_program(None, None), "librespeed-cli");
}

#[test]
fn the_printed_report_is_laid_out_from_the_top() {
    let mut store = busy_store();
    let lines = store.report_lines(1_000_500, 86_400);
    assert_eq!(lines[0].text, "Tracium — Network Report");
    assert_eq!((lines[0].size, lines[0].bold, lines[0].y), (20, true, 280));
    assert_eq!((lines[1].text.as_str(), lines[1].y), ("Range: last 1d", 270));
    assert_eq!((lines[2].text.as_str(), lines[2].y), ("Reliability", 258));
    assert_eq!(lines[3].text, "Uptime: 100.0%  (1 of 1 cycles)");
    assert_eq!((lines[3].indent, lines[3].y), (4, 251));
    assert_eq!(lines[7].text, "Disconnects: 0");
    assert_eq!((lines[8].text.as_str(), lines[8].y), ("Incidents", 215));
    assert_eq!(lines[9].text, "No outages recorded.");
    assert_eq!(lines.len(), 10);

    store.open_outage(61_000, None).unwrap();
    store.insert_dns_sample(1_000_000, "1.1.1.1", "example.com", None, false, None);
    let lines = store.report_lines(1_000_500, 86_400);
    assert_eq!(lines[8].text, "DNS resolvers");
    assert_eq!(lines[9].text, "1.1.1.1                 —  1 lookups, 1 failures");
    assert_eq!(lines[10].text, "");
    assert_eq!(lines[12].text, "start @61  duration ongoing");
}

#[test]
fn the_dashboard_draws_a_frame() {
    let mut store = busy_store();
    store.insert_bandwidth_sample(1_000_000, 16_000_000, 2_500_000);
    let mut w = WatchState::new();
    let all = resolve_sections(None, None).enabled;
    let frame = w.tick(&store, 1_000_500, &all, nano(2.0), 80);
    let lines: Vec<&str> = frame.lines().collect();
    assert_eq!(lines[0], "\x1b[2J\x1b[HTracium — live · refresh 2s · Ctrl-C to quit");
    assert_eq!(lines[2], "  ● ONLINE    1/3 targets up");
    assert_eq!(lines[3], "    Cloudflare     1.1.1.1                  12.2 ms");
    assert_eq!(lines[6], "  gateway: 0.80 ms · loss 0%");
    assert_eq!(lines[8], "  last 1h : uptime 100.0%  lat 12.2 ms  loss 0.0%");
    assert!(frame.contains("  latency   ▁\n  bandwidth ▁\n"));
    assert!(frame.contains("\n  wifi: not connected to Wi-Fi\n"));
    assert!(frame.contains("  bandwidth: ↓ 16.0 Mbps · ↑ 2.5 Mbps\n"));
    assert!(frame.contains("  QoE(30m): no samples yet\n"));
    assert!(frame.contains("  security: no snapshot yet\n"));
    assert!(frame.contains("  devices: 0 online\n"));
    assert!(frame.contains("  route: no traceroute yet\n"));
    assert!(frame.contains("  dns: no samples yet\n"));
    assert!(frame.ends_with("\n  recent events:\n    none yet\n"));
    assert_eq!(w.latency.len(), 1);
}

#[test]
fn the_dashboard_follows_the_route_and_the_devices() {
    let mut store = Store::open_in_memory();
    for k in 0..9 {
        let mac = format!("00:00:00:00:00:0{}", k + 1);
        store.upsert_device(&mac, "10.0.0.1", k).unwrap();
    }
    let hop = TracerouteHop {
        hop_no: 1,
        ip: None,
        hostname: None,
        rtt_ms: Some(reading(9.04)),
        loss_pct: None,
        asn: None,
        as_name: None,
    };
    store.save_traceroute(5, "1.1.1.1", "a", &vec![hop]).unwrap();
    store.insert_wifi_sample(&WifiSample {
        ssid: Some("HomeNet".into()),
        rssi_dbm: Some(-45),
        link_speed_mbps: Some(reading(300.0)),
        ..Default::default()
    });
    store.insert_security_snapshot(&SecuritySnapshot {
        vpn_detected: Some(false),
        firewall_active: Some(true),
        ..Default::default()
    });
    let some = resolve_sections(None, Some("devices,route,wifi,security")).enabled;
    let mut w = WatchState::new();
    let first = w.tick(&store, 100_000_000, &some, nano(2.0), 80);
    assert!(first.contains("  ○ OFFLINE   0/0 targets up\n"));
    assert!(first.contains("  devices: 9 online\n"));
    assert!(first.contains("    +1 more\n"));
    assert!(first.contains("  route: 1 hops to 1.1.1.1 · last hop 9.0ms\n"));
    assert!(first.contains("  wifi: HomeNet · -45 dBm · 300 Mbps\n"));
    assert!(first.contains("  security: vpn no · firewall yes · doh — · dot —\n"));
    assert!(!first.contains("recent events"));
    store.save_traceroute(6, "1.1.1.1", "b", &vec![]).unwrap();
    let second = w.tick(&store, 100_000_000, &some, nano(2.0), 80);
    assert!(second.contains("  route: 0 hops to 1.1.1.1 · route changed\n"));
}

#[test]
fn the_banner_names_the_sections_in_order() {
    let some = resolve_sections(None, Some("wifi,dns")).enabled;
    let text = banner("0.1.0", "/tmp/x.db", nano(2.0), &some);
    assert!(text.ends_with(
        "\n  traciumd 0.1.0 — live watch\n  db:       /tmp/x.db\n  refresh:  2.0s\n  sections: dns, wifi\n\n"
    ));
    assert!(text.starts_with("\n  _______ _____ "));
    assert_eq!(refresh_pause(nano(0.1)), nano(0.5));
    assert_eq!(refresh_pause(nano(2.0)), nano(2.0));
}

#[test]
fn every_section_keeps_its_slot_without_data() {
    let store = Store::open_in_memory();
    let head = WatchState::new().tick(&store, 100_000_000, &vec![], nano(2.0), 80);
    for key in all_sections() {
        let frame = WatchState::new().tick(&store, 100_000_000, &vec![key], nano(2.0), 80);
        assert!(frame.starts_with(&head), "{key}");
        assert!(frame.len() > head.len() && frame.ends_with('\n'), "{key}");
    }
    let qoe = WatchState::new().tick(&store, 100_000_000, &vec!["qoe"], nano(2.0), 80);
    assert_eq!(qoe, head + "  QoE(30m): no samples yet\n");
}

#[test]
fn column_widths_start_from_a_floor() {
    let floor = Widths { label: 14, host: 24, ip: 16, resolver: 12 };
    assert_eq!(column_widths(80), floor);
    assert_eq!(column_widths(60), floor);
}

#[test]
fn column_widths_grow_on_a_wide_terminal() {
    assert_eq!(column_widths(160), Widths { label: 28, host: 48, ip: 32, resolver: 24 });
    assert_eq!(column_widths(101), Widths { label: 18, host: 30, ip: 20, resolver: 15 });
}

#[test]
fn column_widths_clamps_extreme_input() {
    assert_eq!(column_widths(10), column_widths(60));
    assert_eq!(column_widths(10_000), column_widths(200));
    assert_eq!(column_widths(usize::MAX), Widths { label: 36, host: 60, ip: 40, resolver: 30 });
}

#[test]
fn the_dashboard_uses_a_wide_terminal() {
    let mut store = busy_store();
    store.upsert_device("00:00:00:00:00:01", "10.0.0.1", 5).unwrap();
    store.insert_dns_sample(1_000_000, "1.1.1.1", "example.com", Some(nano(10.0)), true, None);
    let some = resolve_sections(None, Some("status,devices,dns")).enabled;
    let frame = WatchState::new().tick(&store, 1_000_500, &some, nano(2.0), 160);
    let target = format!("    {:28} {:48} 12.2 ms\n", "Cloudflare", "1.1.1.1");
    let device = format!("    {:32} 00:00:00:00:00:01\n", "10.0.0.1");
    let dns = format!("  dns: {:24} {:>8}  1 lookups, 0 failures\n", "1.1.1.1", "10.0ms");
    assert!(frame.contains(&target), "{frame}");
    assert!(frame.contains(&device), "{frame}");
    assert!(frame.contains(&dns), "{frame}");
}

/// The same by floating point.
fn float_duration(ms: i64) -> String {
    let s = ms as f64 / 1000.0;
    if s < 60.0 {
        format!("{s:.0}s")
    } else if s < 3600.0 {
        format!("{}m", (s / 60.0).round())
    } else {
        format!("{:.1}h", s / 3600.0)
    }
}

#[test]
fn durations_are_those_of_doubles() {
    for k in 0..4_000 {
        for ms in [k, k * 500, k * 15_000, k * 30_000, k * 180_000, -k * 500] {
            assert_eq!(fmt_dur(ms), float_duration(ms), "{ms}");
        }
    }
    let mut ms: i64 = 1;
    while ms < i64::MAX / 3 {
        for x in [ms - 1, ms, ms + 1, -ms] {
            assert_eq!(fmt_dur(x), float_duration(x), "{x}");
        }
        ms = ms * 3 + 1;
    }
    for x in [i64::MAX, i64::MIN, i64::MAX - 1, (1 << 53) + 1, -(1 << 53) - 1] {
        assert_eq!(fmt_dur(x), float_duration(x), "{x}");
    }
}

#[test]
fn printed_decimals_are_those_of_doubles() {
    for k in 0..4_000u64 {
        for n in [k * 50_000_000, k * 5_000_000 + 1, k * 1_234_567_891, k, k * 500_000_000] {
            let x = n as f64 / 1e9;
            for places in 0..4 {
                let want = format!("{:.*}", places as usize, x);
                assert_eq!(decimal_of(n, 1_000_000_000, places), want, "{n}");
            }
        }
    }
    for n in [u64::MAX, u64::MAX / 7, 1 << 53, (1 << 53) + 1, 9_007_199_254_740_993] {
        assert_eq!(decimal_of(n, 1, 1), format!("{:.1}", n as f64));
    }
    for n in [0, 50_000, 150_000, 250_000, 1_150_000, i64::MAX, i64::MIN, -(1 << 60) - 77] {
        assert_eq!(quotient_of(n, 1_000_000, 1), format!("{:.1}", n as f64 / 1e6), "{n}");
    }
}

#[test]
fn windows_are_read_back() {
    for secs in [0, 3_600, 86_400, 90_000, 604_800, -7_200, i64::MAX - i64::MAX % 3_600] {
        assert_eq!(window_secs(&human(secs)), secs);
    }
    assert_eq!(window_secs(&human(90)), 86_400, "seconds are no window");
}
