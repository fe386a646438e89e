//! The readers of tool output, on captured outputs.

use std::collections::hash_map::DefaultHasher;
use std::hash::{Hash, Hasher};

use tracium::devices::{is_bogus_mac, parse_arp_a, parse_proc_net_arp, ArpEntry};
use tracium::dns::{dns_outcome, parse_resolvectl};
use tracium::ifstat::parse_proc_net_dev;
use tracium::number::Reading;
use tracium::ping::{parse_unix_ping, parse_windows_ping, ping_args};
use tracium::traceroute::{
    hash_route, parse_traceroute, parse_tracert, trace_result, traceroute_args, Hop,
};
use tracium::wifi::{
    band_from_freq, channel_from_freq, parse_iw_interface, parse_iw_link as read_iw,
    parse_netsh as read_netsh, wifi_link,
};

/// A reading from a decimal that is exact in billionths.
fn reading(x: f64) -> Reading {
    Reading { billionths: (x * 1e9).round() as i64 }
}

#[test]
fn parses_unix_ping() {
    let sample = "\
PING 192.168.1.1 (192.168.1.1) 56(84) bytes of data.
64 bytes from 192.168.1.1: icmp_seq=1 ttl=64 time=0.340 ms
64 bytes from 192.168.1.1: icmp_seq=2 ttl=64 time=0.300 ms

--- 192.168.1.1 ping statistics ---
3 packets transmitted, 2 received, 33% packet loss, time 2003ms
rtt min/avg/max/mdev = 0.300/0.340/0.400/0.040 ms";
    let r = parse_unix_ping(sample).unwrap();
    assert_eq!(r.sent, 3);
    assert_eq!(r.received, 2);
    assert_eq!(r.loss_pct, reading(33.0));
    assert_eq!(r.rtt_min, Some(reading(0.300)));
    assert_eq!(r.rtt_avg, Some(reading(0.340)));
    assert_eq!(r.rtt_max, Some(reading(0.400)));
}

#[test]
fn parses_windows_ping() {
    let sample = "\
Pinging 192.168.1.1 with 32 bytes of data:
Reply from 192.168.1.1: bytes=32 time=1ms TTL=64

Ping statistics for 192.168.1.1:
    Packets: Sent = 4, Received = 4, Lost = 0 (0% loss),
Approximate round trip times in milli-seconds:
    Minimum = 0ms, Maximum = 2ms, Average = 1ms";
    let r = parse_windows_ping(sample).unwrap();
    assert_eq!(r.sent, 4);
    assert_eq!(r.received, 4);
    assert_eq!(r.loss_pct, reading(0.0));
    assert_eq!(r.rtt_min, Some(reading(0.0)));
    assert_eq!(r.rtt_max, Some(reading(2.0)));
    assert_eq!(r.rtt_avg, Some(reading(1.0)));
}

#[test]
fn ping_without_summary_is_none() {
    assert!(parse_unix_ping("ping: unknown host").is_none());
    assert!(parse_windows_ping("").is_none());
    let lost = parse_unix_ping("2 packets transmitted, 0 received, 100% packet loss, time 9ms");
    let r = lost.unwrap();
    assert_eq!(r.loss_pct, reading(100.0));
    assert_eq!(r.rtt_avg, None);
}

#[test]
fn ping_and_traceroute_arguments() {
    assert_eq!(ping_args(false, 3, "h"), vec!["-n", "-c", "3", "-W", "1", "h"]);
    assert_eq!(ping_args(true, 12, "h"), vec!["-n", "12", "h"]);
    assert_eq!(traceroute_args(false, 30, "t"), vec!["-n", "-q", "1", "-m", "30", "t"]);
    assert_eq!(traceroute_args(true, 30, "t"), vec!["-d", "-h", "30", "t"]);
}

#[test]
fn parses_proc_net_arp() {
    let sample = "\
IP address       HW type     Flags       HW address            Mask     Device
192.168.1.1      0x1         0x2         aa:bb:cc:dd:ee:ff     *        wlan0
192.168.1.42     0x1         0x2         11:22:33:44:55:66     *        wlan0
192.168.1.99     0x1         0x0         00:00:00:00:00:00     *        wlan0";
    let d = parse_proc_net_arp(sample, None);
    assert_eq!(d.len(), 2, "incomplete entry should be skipped");
    assert_eq!(d[0], ArpEntry { ip: "192.168.1.1".into(), mac: "aa:bb:cc:dd:ee:ff".into() });
}

#[test]
fn filters_to_the_given_interface() {
    let sample = "\
IP address       HW type     Flags       HW address            Mask     Device
192.168.1.1      0x1         0x2         aa:bb:cc:dd:ee:ff     *        enp8s0
172.18.0.3       0x1         0x2         f2:83:d0:5d:0a:c2     *        br-fbb094e3a367";
    let d = parse_proc_net_arp(sample, Some("enp8s0"));
    assert_eq!(d.len(), 1);
    assert_eq!(d[0].ip, "192.168.1.1");
}

#[test]
fn parses_windows_arp_a() {
    let sample = "\
Interface: 192.168.1.5 --- 0x5
  Internet Address      Physical Address      Type
  192.168.1.1           aa-bb-cc-dd-ee-ff     dynamic
  192.168.1.42          11-22-33-44-55-66     dynamic
  192.168.1.255         ff-ff-ff-ff-ff-ff     static";
    let d = parse_arp_a(sample);
    assert_eq!(d.len(), 2, "broadcast MAC should be skipped");
    assert_eq!(d[1], ArpEntry { ip: "192.168.1.42".into(), mac: "11:22:33:44:55:66".into() });
}

#[test]
fn placeholder_macs_are_bogus_in_any_case() {
    assert!(is_bogus_mac(""));
    assert!(is_bogus_mac("00:00:00:00:00:00"));
    assert!(is_bogus_mac("FF:ff:FF:ff:FF:ff"));
    assert!(!is_bogus_mac("AA:bb:cc:dd:ee:ff"));
}

#[test]
fn macs_are_lowered() {
    let d = parse_proc_net_arp("h\n10.0.0.9 0x1 0x2 AA:BB:CC:DD:EE:0F * eth0\n", None);
    assert_eq!(d[0].mac, "aa:bb:cc:dd:ee:0f");
}

#[test]
fn parses_resolvectl_statistics() {
    let sample = "\
Transactions
              Current Transactions: 0
                Total Transactions: 182475
Cache
                Current Cache Size: 57
                        Cache Hits: 3000
                      Cache Misses: 179475";
    let s = parse_resolvectl(sample).unwrap();
    assert_eq!(s.hits, 3000);
    assert_eq!(s.misses, 179475);
    assert!(parse_resolvectl("Cache Hits: 3").is_none());
}

#[test]
fn a_lookup_without_addresses_fails() {
    let ok = dns_outcome("1.1.1.1", "example.com", Some(2), 1_500_000);
    assert!(ok.success);
    assert_eq!(ok.lookup_ms, Some(1_500_000_000));
    let none = dns_outcome("1.1.1.1", "example.com", Some(0), 1_500_000);
    assert!(!none.success);
    assert!(none.lookup_ms.is_none());
    let failed = dns_outcome("192.0.2.1", "example.com", None, 7);
    assert!(!failed.success);
    assert_eq!(failed.resolver, "192.0.2.1");
    assert_eq!(failed.query_host, "example.com");
}

#[test]
fn parses_proc_net_dev() {
    let sample = "\
Inter-|   Receive                                                |  Transmit
 face |bytes    packets errs drop fifo frame compressed multicast|bytes    packets errs drop fifo colls carrier compressed
    lo: 1000       10    0    0    0     0          0         0     1000       10    0    0    0     0       0          0
  eth0: 5000       50    2    3    0     0          0         0     6000       60    4    5    0     0       0          0
 wlan0: 7000       70    1    0    0     0          0         0     8000       80    0    1    0     0       0          0";
    let e = parse_proc_net_dev(sample);
    assert_eq!(e.rx_errors, 3);
    assert_eq!(e.rx_drops, 3);
    assert_eq!(e.tx_errors, 4);
    assert_eq!(e.tx_drops, 6);
}

#[test]
fn parses_gnu_traceroute() {
    let sample = "\
traceroute to 1.1.1.1 (1.1.1.1), 30 hops max, 60 byte packets
 1  192.168.1.1  1.234 ms
 2  * * *
 3  10.0.0.1  5.20 ms
 4  1.1.1.1  9.80 ms";
    let hops = parse_traceroute(sample);
    assert_eq!(hops.len(), 4);
    assert_eq!(
        hops[0],
        Hop { hop_no: 1, ip: Some("192.168.1.1".into()), rtt_ms: Some(reading(1.234)) }
    );
    assert_eq!(hops[1], Hop { hop_no: 2, ip: None, rtt_ms: None });
    assert_eq!(hops[3].ip.as_deref(), Some("1.1.1.1"));
}

#[test]
fn parses_windows_tracert() {
    let sample = "\
Tracing route to one.one.one.one [1.1.1.1]
over a maximum of 30 hops:

  1    <1 ms    <1 ms    <1 ms  192.168.1.1
  2     5 ms     4 ms     6 ms  10.0.0.1
  3     *        *        *     Request timed out.
  4     9 ms     8 ms     9 ms  1.1.1.1

Trace complete.";
    let hops = parse_tracert(sample);
    assert_eq!(hops.len(), 4);
    assert_eq!(
        hops[0],
        Hop { hop_no: 1, ip: Some("192.168.1.1".into()), rtt_ms: Some(reading(1.0)) }
    );
    assert_eq!(hops[1].rtt_ms, Some(reading(5.0)));
    assert_eq!(hops[2], Hop { hop_no: 3, ip: None, rtt_ms: None });
    assert_eq!(hops[3].ip.as_deref(), Some("1.1.1.1"));
}

#[test]
fn route_hash_changes_with_path() {
    let a = vec![Hop { hop_no: 1, ip: Some("10.0.0.1".into()), rtt_ms: Some(reading(1.0)) }];
    let b = vec![Hop { hop_no: 1, ip: Some("10.0.0.2".into()), rtt_ms: Some(reading(1.0)) }];
    assert_ne!(hash_route(&a), hash_route(&b));
    assert_eq!(hash_route(&a), hash_route(&a));
}

#[test]
fn route_hash_is_that_of_the_standard_hasher() {
    let hops = vec![
        Hop { hop_no: 1, ip: Some("10.0.0.1".into()), rtt_ms: None },
        Hop { hop_no: 7, ip: None, rtt_ms: Some(reading(3.5)) },
    ];
    let mut h = DefaultHasher::new();
    "10.0.0.1".hash(&mut h);
    "*".hash(&mut h);
    assert_eq!(hash_route(&hops), format!("{:016x}", h.finish()));
}

#[test]
fn route_hash_ignores_times_and_numbers() {
    let a = vec![Hop { hop_no: 1, ip: Some("10.0.0.1".into()), rtt_ms: Some(reading(1.0)) }];
    let b = vec![Hop { hop_no: 9, ip: Some("10.0.0.1".into()), rtt_ms: None }];
    assert_eq!(hash_route(&a), hash_route(&b));
}

#[test]
fn a_trace_without_hops_is_none() {
    assert!(trace_result("1.1.1.1", "traceroute: not found", false).is_none());
    let t = trace_result("1.1.1.1", " 1  (fe80::1)  2.5 ms", false).unwrap();
    assert_eq!(t.hops[0].ip.as_deref(), Some("fe80::1"));
    assert_eq!(t.hops[0].rtt_ms, Some(reading(2.5)));
    assert_eq!(t.target, "1.1.1.1");
    assert_eq!(t.route_hash.len(), 16);
}

#[test]
fn parses_iw_link_sample() {
    let sample = "\
Connected to aa:bb:cc:dd:ee:ff (on wlan0)
\tSSID: HomeNet
\tfreq: 5180
\tsignal: -45 dBm
\ttx bitrate: 300.0 MBit/s";
    let w = wifi_link(sample, false).unwrap();
    assert_eq!(w, read_iw(sample));
    assert!(wifi_link("Not connected.", false).is_none());
    assert!(wifi_link("", false).is_none());
    assert!(wifi_link("nothing here", true).is_none());
}

#[test]
fn parses_iw_link_fields() {
    let w = read_iw("Connected to AA:BB:CC:DD:EE:FF (on wlan0)\n freq: 2437");
    assert_eq!(w.bssid.as_deref(), Some("aa:bb:cc:dd:ee:ff"));
    assert_eq!(w.channel, Some(6));
    assert_eq!(w.band.as_deref(), Some("2.4"));
    assert_eq!(w.ssid, None);
}

#[test]
fn parses_iw_link() {
    let sample = "\
Connected to aa:bb:cc:dd:ee:ff (on wlan0)
\tSSID: HomeNet
\tfreq: 5180
\tsignal: -45 dBm
\ttx bitrate: 300.0 MBit/s";
    let w = read_iw(sample);
    assert_eq!(w.ssid.as_deref(), Some("HomeNet"));
    assert_eq!(w.bssid.as_deref(), Some("aa:bb:cc:dd:ee:ff"));
    assert_eq!(w.rssi_dbm, Some(-45));
    assert_eq!(w.freq_mhz, Some(5180));
    assert_eq!(w.band.as_deref(), Some("5"));
    assert_eq!(w.channel, Some(36));
    assert_eq!(w.link_mbps, Some(reading(300.0)));
}

#[test]
fn parses_netsh() {
    let sample = "\
    Name                   : Wi-Fi
    SSID                   : HomeNet
    BSSID                  : AA-BB-CC-DD-EE-FF
    Signal                 : 90%
    Channel                : 36
    Receive rate (Mbps)    : 300";
    let w = read_netsh(sample);
    assert_eq!(w.ssid.as_deref(), Some("HomeNet"));
    assert_eq!(w.bssid.as_deref(), Some("aa-bb-cc-dd-ee-ff"));
    assert_eq!(w.quality_pct, Some(reading(90.0)));
    assert_eq!(w.rssi_dbm, Some(-55));
    assert_eq!(w.channel, Some(36));
    assert_eq!(w.band.as_deref(), Some("5"));
    assert_eq!(w.link_mbps, Some(reading(300.0)));
}

#[test]
fn finds_the_wifi_interface() {
    let sample = "phy#0\n\tInterface wlan0\n\t\tifindex 3\n";
    assert_eq!(parse_iw_interface(sample).as_deref(), Some("wlan0"));
    assert_eq!(parse_iw_interface("phy#0\n"), None);
}

#[test]
fn bands_and_channels() {
    assert_eq!(band_from_freq(2412), "2.4");
    assert_eq!(band_from_freq(5180), "5");
    assert_eq!(band_from_freq(5955), "6");
    assert_eq!(channel_from_freq(2412), Some(1));
    assert_eq!(channel_from_freq(2484), Some(14));
    assert_eq!(channel_from_freq(5180), Some(36));
    assert_eq!(channel_from_freq(3000), None);
}

#[test]
fn arp_a_lists_no_placeholder() {
    let text = "Interface: 192.168.1.5 --- 0x4\n  192.168.1.1  AA-BB-CC-00-11-22  dynamic\n  \
                192.168.1.255  FF-FF-FF-FF-FF-FF  static\n  192.168.1.9  00-00-00-00-00-00  invalid\n  \
                192.168.1.8  dynamic\n";
    let got = parse_arp_a(text);
    assert_eq!(got.len(), 1);
    assert_eq!(got[0].ip, "192.168.1.1");
    assert_eq!(got[0].mac, "aa:bb:cc:00:11:22");
}

#[test]
fn asking_for_an_interface_only_filters() {
    let text = "head\n10.0.0.1 0x1 0x2 00:00:00:00:00:0a * eth0\n10.0.0.2 0x1 0x2 00:00:00:00:00:0b * br0\n\
                10.0.0.3 0x1 0x2 00:00:00:00:00:0c * eth0\n";
    let all = parse_proc_net_arp(text, None);
    let some = parse_proc_net_arp(text, Some("eth0"));
    assert_eq!(all.len(), 3);
    assert_eq!(some, vec![all[0].clone(), all[2].clone()]);
    assert!(parse_proc_net_arp(text, Some("wlan0")).is_empty());
}

#[test]
fn interface_counters_of_joined_texts_add_up() {
    let a = "eth0: 1 1 2 3 0 0 0 0 1 1 4 5 0 0 0 0\r";
    let b = "wlan0: 1 1 10 20 0 0 0 0 1 1 30 40 0 0 0 0";
    let (ea, eb) = (parse_proc_net_dev(a), parse_proc_net_dev(b));
    let both = parse_proc_net_dev(&format!("{a}\n{b}"));
    assert_eq!((ea.rx_errors, ea.rx_drops, ea.tx_errors, ea.tx_drops), (2, 3, 4, 5));
    assert_eq!((both.rx_errors, both.rx_drops), (ea.rx_errors + eb.rx_errors, 23));
    assert_eq!((both.tx_errors, both.tx_drops), (34, 45));
    assert_eq!(parse_proc_net_dev(&format!("{b}\n{a}")), both);
    for idle in ["head | er", "  lo: 9 9 9 9 9 9 9 9 9 9 9 9 9 9 9 9", "eth1: 1 2 3", ""] {
        assert_eq!(parse_proc_net_dev(&format!("{a}\n{idle}\n{b}")), both);
        assert_eq!(parse_proc_net_dev(&format!("{idle}\n{a}\n{b}\n{idle}")), both);
    }
}
