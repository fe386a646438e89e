//! Values that probes hand over: addresses, names, ports, answers.

use tracium::asn::{asn_name, lookup_asn, name_query, origin_asn, origin_query};
use tracium::netinfo::{cloudflare_trace, ipify, public_ip};
use tracium::number::{decimal_of, i64_text, read_decimal, read_i64, Reading};
use tracium::router::{query_router, snmp_address, sys_descr, sys_name, sys_uptime};
use tracium::security::{
    common_ports, detect_vpn, firewall_active, firewall_services, scan_local_ports,
    windows_firewall,
};
use tracium::text::{chars, lowered};

#[test]
fn vpn_detection_runs() {
    let v = detect_vpn(vec!["lo".to_string(), "wg0".to_string()]);
    // Interfaces are listed if and only if one is active.
    assert_eq!(v.active, !v.interfaces.is_empty());
    assert!(v.active);
    assert_eq!(v.interfaces, vec!["wg0".to_string()]);
    let none = detect_vpn(vec!["eth0".to_string()]);
    assert_eq!(none.active, !none.interfaces.is_empty());
    assert!(!none.active);
}

#[test]
fn scan_keeps_the_ports_that_listen() {
    assert_eq!(scan_local_ports(&vec![(22, true), (80, false), (443, true)]), vec![22, 443]);
    assert!(scan_local_ports(&vec![(22, false)]).is_empty());
    assert!(common_ports().contains(&22));
}

#[test]
fn firewall_states() {
    assert!(!firewall_services().is_empty());
    assert_eq!(windows_firewall(None), None);
    // The report is read in any case.
    assert_eq!(windows_firewall(Some("State                                 on")), Some(true));
    assert_eq!(windows_firewall(Some("State                                 Off")), Some(false));
    assert_eq!(firewall_active(&vec![Some("active\n".to_string())]), Some(true));
}

#[test]
fn public_address_from_either_source() {
    let body = "fl=1\nip=203.0.113.4\nts=2";
    assert_eq!(cloudflare_trace(body).as_deref(), Some("203.0.113.4"));
    assert_eq!(ipify(" 203.0.113.9\n").as_deref(), Some("203.0.113.9"));
    assert_eq!(public_ip(Some(body), None).as_deref(), Some("203.0.113.4"));
    assert_eq!(public_ip(Some("nothing"), Some("203.0.113.9")).as_deref(), Some("203.0.113.9"));
    assert_eq!(public_ip(None, None), None);
}

#[test]
fn autonomous_systems() {
    assert_eq!(origin_query("8.8.4.4").as_deref(), Some("4.4.8.8.origin.asn.cymru.com."));
    assert_eq!(origin_query("192.168.1.1"), None);
    assert_eq!(origin_asn("15169 | 8.8.8.0/24 | US | arin | 1992-12-01").as_deref(), Some("15169"));
    assert_eq!(name_query("15169"), "AS15169.asn.cymru.com.");
    assert_eq!(
        asn_name("15169 | US | arin | 2000-03-30 | GOOGLE, US").as_deref(),
        Some("GOOGLE, US")
    );
    let found = lookup_asn(
        Some("15169 | 8.8.8.0/24 | US | arin | 1992-12-01"),
        Some("15169 | US | arin | 2000-03-30 | GOOGLE, US"),
    )
    .unwrap();
    assert_eq!(found.asn, "AS15169");
    assert_eq!(lookup_asn(None, None), None);
}

#[test]
fn router_facts() {
    assert_eq!(sys_descr(), vec![1, 3, 6, 1, 2, 1, 1, 1, 0]);
    assert_eq!(sys_name(), vec![1, 3, 6, 1, 2, 1, 1, 5, 0]);
    assert_eq!(sys_uptime(), vec![1, 3, 6, 1, 2, 1, 1, 3, 0]);
    assert_eq!(snmp_address("192.168.1.1"), "192.168.1.1:161");
    assert_eq!(snmp_address("192.168.1.1:1161"), "192.168.1.1:1161");
    assert_eq!(query_router(None, None, None), None);
    let r = query_router(None, Some("gw".into()), Some(12_345)).unwrap();
    assert_eq!(r.uptime_secs, Some(123));
}

#[test]
fn numbers_in_text() {
    for n in [0, 7, -12, i64::MAX, i64::MIN] {
        assert_eq!(read_i64(&chars(&i64_text(n))), Some(n));
    }
    assert_eq!(read_i64(&chars("9223372036854775808")), None);
    assert_eq!(read_decimal(&chars("500.5")), Some(Reading { billionths: 500_500_000_000 }));
    assert_eq!(read_decimal(&chars("1.2e1")), Some(Reading { billionths: 12_000_000_000 }));
    assert_eq!(read_decimal(&chars("-.5")), Some(Reading { billionths: -500_000_000 }));
    assert_eq!(read_decimal(&chars("x")), None);
    assert_eq!(decimal_of(12_250_000_000, 1_000_000_000, 1), "12.2");
    // No double holds 12.35; the nearest lies below it.
    assert_eq!(decimal_of(12_350_000_000, 1_000_000_000, 1), "12.3");
    assert_eq!(lowered(&chars("AÄ-F")), "aä-f");
}
