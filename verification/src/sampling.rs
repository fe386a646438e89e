//! What the slower jobs do with their readings.

use vstd::prelude::*;

use crate::asn::AsInfo;
use crate::bandwidth;
use crate::bandwidth::BandwidthSample;
use crate::devices::ArpEntry;
use crate::display;
use crate::dns::{DnsCacheStats, DnsResult};
use crate::export;
use crate::monitor;
use crate::monitor::Monitor;
use crate::number;
use crate::number::Reading;
use crate::order;
use crate::ping::PingResult;
use crate::records;
use crate::rows;
use crate::rows::{copy_text, BandwidthNow, Device, DnsSample, InterfaceSample, SecuritySnapshot, TracerouteHop, WifiSample};
use crate::security;
use crate::security::VpnStatus;
use crate::store;
use crate::store::Store;
use crate::tables;
use crate::text;
use crate::traceroute::{Hop, TraceResult};
use crate::wifi::WifiInfo;

verus! {

// ---------------------------------------------------------------------------
// DNS
// ---------------------------------------------------------------------------

/// The resolvers that are compared, with their addresses.
pub open spec fn compared_resolvers() -> Seq<(Seq<char>, Seq<char>)> {
    seq![("Cloudflare"@, "1.1.1.1"@), ("Google"@, "8.8.8.8"@), ("Quad9"@, "9.9.9.9"@)]
}

/// The addresses of the resolvers that are compared.
pub fn dns_resolvers() -> (r: Vec<&'static str>)
    ensures
        r@.len() == compared_resolvers().len(),
        forall|i: int| 0 <= i < r@.len() ==> (#[trigger] r@[i])@ == compared_resolvers()[i].1,
{
    vec!["1.1.1.1", "8.8.8.8", "9.9.9.9"]
}

/// The names that lookups rotate through, one a minute.
pub open spec fn lookup_hosts() -> Seq<Seq<char>> {
    seq!["example.com"@, "wikipedia.org"@, "github.com"@, "cloudflare.com"@]
}

/// Whole minutes since the epoch, cut towards it.
pub open spec fn minute(now: int) -> int {
    if now >= 0 {
        now / 60_000
    } else {
        -((-now) / 60_000)
    }
}

/// The name to look up at a time.
pub fn dns_host(now: i64) -> (r: &'static str)
    ensures
        r@ == lookup_hosts()[minute(now as int) % 4],
{
    let m: i128 = if now >= 0 {
        now as i128 / 60_000
    } else {
        -((-(now as i128)) / 60_000)
    };
    let i: i128 = if m >= 0 { m % 4 } else { 3 - (-(m + 1)) % 4 };
    assert(i == minute(now as int) % 4) by {
        if m < 0 {
            let w = -(m + 1) as int;
            assert((-w - 1) % 4 == 3 - w % 4);
        }
    }
    if i == 0 {
        "example.com"
    } else if i == 1 {
        "wikipedia.org"
    } else if i == 2 {
        "github.com"
    } else {
        "cloudflare.com"
    }
}

/// The lookups were added at the end, in order.
pub open spec fn lookups_added(
    old_rows: Seq<DnsSample>,
    new_rows: Seq<DnsSample>,
    now: i64,
    results: Seq<DnsResult>,
) -> bool {
    &&& new_rows.len() == old_rows.len() + results.len()
    &&& new_rows.take(old_rows.len() as int) == old_rows
    &&& forall|i: int|
        0 <= i < results.len() ==> is_lookup(
            #[trigger] new_rows[old_rows.len() + i],
            now,
            results[i],
        )
}

pub open spec fn is_lookup(s: DnsSample, now: i64, r: DnsResult) -> bool {
    &&& s.ts == now
    &&& s.resolver@ == r.resolver@
    &&& s.query_host@ == r.query_host@
    &&& s.lookup_ms == r.lookup_ms
    &&& s.success == r.success
    &&& s.cached is None
}

/// A stored counter, in billionths: a whole number of any size, or a decimal.
pub open spec fn stored_counter(v: Option<Seq<char>>) -> Option<int> {
    match v {
        Some(s) => match number::parse_i64(text::trim(s)) {
            Some(n) => Some(n * 1_000_000_000),
            None => match number::reading(text::trim(s)) {
                Some(r) => Some(r.billionths as int),
                None => None,
            },
        },
        None => None,
    }
}

/// How far a counter rose, in billionths; zero if it fell.
pub open spec fn risen(now: i64, before: int) -> int {
    let d = now * 1_000_000_000 - before;
    if d > 0 {
        d
    } else {
        0
    }
}

/// The share of lookups that the cache answered between two readings, in
/// billionths of a percent; none if there was no reading before or no lookup.
pub open spec fn hit_rate(cur: DnsCacheStats, hits: Option<int>, misses: Option<int>) -> Option<nat> {
    match (hits, misses) {
        (Some(h), Some(m)) => {
            let dh = risen(cur.hits, h);
            let dm = risen(cur.misses, m);
            if dh + dm > 0 {
                Some((dh * 100_000_000_000 / (dh + dm)) as nat)
            } else {
                None
            }
        },
        _ => None,
    }
}

fn risen_by(now: i64, before: i128) -> (r: i128)
    requires
        -0x8000_0000_0000_0000 * 1_000_000_000 <= before <= 0x8000_0000_0000_0000 * 1_000_000_000,
    ensures
        r == risen(now, before as int),
        0 <= r <= 0x1_0000_0000_0000_0000 * 1_000_000_000,
{
    let d: i128 = now as i128 * 1_000_000_000 - before;
    if d > 0 {
        d
    } else {
        0
    }
}

/// The cache hit rate between two readings.
fn cache_hit_rate(cur: DnsCacheStats, hits: Option<i128>, misses: Option<i128>) -> (r: Option<u64>)
    requires
        hits is Some ==> -0x8000_0000_0000_0000 * 1_000_000_000 <= hits->0 <= 0x8000_0000_0000_0000
            * 1_000_000_000,
        misses is Some ==> -0x8000_0000_0000_0000 * 1_000_000_000 <= misses->0
            <= 0x8000_0000_0000_0000 * 1_000_000_000,
    ensures
        ({
            let h = match hits {
                Some(x) => Some(x as int),
                None => None,
            };
            let m = match misses {
                Some(x) => Some(x as int),
                None => None,
            };
            match (r, hit_rate(cur, h, m)) {
                (Some(a), Some(b)) => a == b,
                (None, None) => true,
                _ => false,
            }
        }),
{
    match (hits, misses) {
        (Some(h), Some(m)) => {
            let dh: i128 = risen_by(cur.hits, h);
            let dm: i128 = risen_by(cur.misses, m);
            if dh + dm <= 0 {
                return None;
            }
            let n: i128 = dh + dm;
            // Long division in two steps keeps the product in range.
            let a: i128 = dh * 1_000_000;
            let q: i128 = a / n;
            let rest: i128 = a % n;
            let low: i128 = rest * 100_000 / n;
            proof {
                lemma_rate_steps(dh as int, n as int);
            }
            Some((q * 100_000 + low) as u64)
        },
        _ => None,
    }
}

proof fn lemma_rate_steps(d: int, n: int)
    requires
        0 <= d <= n,
        n > 0,
    ensures
        d * 100_000_000_000 / n == (d * 1_000_000 / n) * 100_000
            + (d * 1_000_000 % n) * 100_000 / n,
        0 <= d * 1_000_000 / n <= 1_000_000,
        0 <= (d * 1_000_000 % n) * 100_000 / n <= 100_000,
        0 <= d * 1_000_000 % n < n,
{
    let a = d * 1_000_000;
    let q = a / n;
    let r = a % n;
    vstd::arithmetic::div_mod::lemma_fundamental_div_mod(a, n);
    assert(a == q * n + r) by (nonlinear_arith)
        requires
            a == n * q + r,
    ;
    assert(0 <= q <= 1_000_000) by (nonlinear_arith)
        requires
            0 <= a <= 1_000_000 * n,
            q == a / n,
            n > 0,
    ;
    assert(0 <= r * 100_000 / n <= 100_000) by (nonlinear_arith)
        requires
            0 <= r < n,
    ;
    assert(a * 100_000 / n == q * 100_000 + r * 100_000 / n) by (nonlinear_arith)
        requires
            a == q * n + r,
            0 <= r < n,
    {
        assert(a * 100_000 == (q * 100_000) * n + r * 100_000);
    }
    assert(d * 100_000_000_000 == a * 100_000);
}

/// A cache reading is stored: the rate since the last reading, where there is
/// one, then the counters. `a` and `b` are the rows in between.
pub open spec fn cache_steps(
    old_rows: Seq<rows::Setting>,
    a: Seq<rows::Setting>,
    b: Seq<rows::Setting>,
    new_rows: Seq<rows::Setting>,
    cur: DnsCacheStats,
    now: i64,
) -> bool {
    let rate = hit_rate(
        cur,
        stored_counter(tables::setting(old_rows, "dns.cache_hits"@)),
        stored_counter(tables::setting(old_rows, "dns.cache_misses"@)),
    );
    &&& match rate {
        Some(r) => tables::was_set(old_rows, a, "dns.cache_hit_rate"@, export::plain(r), now),
        None => a == old_rows,
    }
    &&& tables::was_set(a, b, "dns.cache_hits"@, number::dec_int(cur.hits as int), now)
    &&& tables::was_set(b, new_rows, "dns.cache_misses"@, number::dec_int(cur.misses as int), now)
}

/// What a cache reading does to the settings: it is kept only if the user asked
/// for it.
pub open spec fn cache_settings(
    old_rows: Seq<rows::Setting>,
    new_rows: Seq<rows::Setting>,
    cache: Option<DnsCacheStats>,
    now: i64,
) -> bool {
    let on = match tables::setting(old_rows, "dns.cache_stats"@) {
        Some(s) => number::parse_i64(text::trim(s)) == Some(1i64),
        None => false,
    };
    match cache {
        Some(cur) if on => exists|a: Seq<rows::Setting>, b: Seq<rows::Setting>| #[trigger]
            cache_steps(old_rows, a, b, new_rows, cur, now),
        _ => new_rows == old_rows,
    }
}

impl Store {
    fn counter(&self, key: &str) -> (r: Option<i128>)
        ensures
            match (r, stored_counter(tables::setting(self.settings@, key@))) {
                (Some(a), Some(b)) => a == b && -0x8000_0000_0000_0000 * 1_000_000_000 <= a
                    <= 0x8000_0000_0000_0000 * 1_000_000_000,
                (None, None) => true,
                _ => false,
            },
    {
        match self.get_setting_i64(key) {
            Some(n) => Some(n as i128 * 1_000_000_000),
            None => match self.get_setting_f64(key) {
                Some(x) => Some(x.billionths as i128),
                None => None,
            },
        }
    }
}

impl Monitor {
    /// Whether the user asked for cache counters. Reading them can bring up an
    /// authorisation prompt, so by default they are not read.
    pub fn wants_cache_stats(&self) -> (r: bool)
        ensures
            r == counts_are_wanted(self.store.settings@),
    {
        match self.store.get_setting_i64("dns.cache_stats") {
            Some(n) => n == 1,
            None => false,
        }
    }

    /// Stores the lookups of a round, and the cache hit rate where the user asked
    /// for it.
    pub fn sample_dns(&mut self, now: i64, results: &Vec<DnsResult>, cache: Option<DnsCacheStats>)
        requires
            old(self).store.wf(),
        ensures
            final(self).store.wf(),
            lookups_added(old(self).store.dns@, final(self).store.dns@, now, results@),
            cache_settings(old(self).store.settings@, final(self).store.settings@, cache, now),
            final(self).config == old(self).config,
            final(self).store == (Store {
                dns: final(self).store.dns,
                settings: final(self).store.settings,
                ..old(self).store
            }),
    {
        let ghost before = self.store.dns@;
        let mut i: usize = 0;
        assert(before.take(before.len() as int) == before);
        while i < results.len()
            invariant
                i <= results.len(),
                self.store.wf(),
                before == old(self).store.dns@,
                self.config == old(self).config,
                self.store == (Store { dns: self.store.dns, ..old(self).store }),
                lookups_added(before, self.store.dns@, now, results@.take(i as int)),
            decreases results.len() - i,
        {
            let ghost cur = self.store.dns@;
            let r = &results[i];
            self.store.insert_dns_sample(
                now,
                r.resolver.as_str(),
                r.query_host.as_str(),
                r.lookup_ms,
                r.success,
                None,
            );
            proof {
                let next = self.store.dns@;
                assert(next.drop_last() == cur);
                assert(next.take(before.len() as int) == cur.take(before.len() as int));
                assert forall|k: int| 0 <= k < i + 1 implies is_lookup(
                    #[trigger] next[before.len() + k],
                    now,
                    results@.take(i + 1)[k],
                ) by {
                    if k < i {
                        assert(next[before.len() + k] == cur[before.len() + k]);
                        assert(results@.take(i as int)[k] == results@.take(i + 1)[k]);
                    }
                }
            }
            i += 1;
        }
        assert(results@.take(results@.len() as int) == results@);
        if let Some(c) = cache {
            if self.wants_cache_stats() {
                let ghost start = self.store.settings@;
                let hits = self.store.counter("dns.cache_hits");
                let misses = self.store.counter("dns.cache_misses");
                if let Some(rate) = cache_hit_rate(c, hits, misses) {
                    self.store.set_setting(
                        "dns.cache_hit_rate",
                        export::plain_text(rate).as_str(),
                        now,
                    );
                }
                let ghost a = self.store.settings@;
                self.store.set_setting("dns.cache_hits", number::i64_text(c.hits).as_str(), now);
                let ghost b = self.store.settings@;
                self.store.set_setting("dns.cache_misses", number::i64_text(c.misses).as_str(), now);
                assert(cache_steps(start, a, b, self.store.settings@, c, now));
            }
        }
    }
}

// ---------------------------------------------------------------------------
// Bandwidth, gateway and devices
// ---------------------------------------------------------------------------

/// The bytes of each interface were added at the end, in order.
pub open spec fn bytes_added(
    old_rows: Seq<InterfaceSample>,
    new_rows: Seq<InterfaceSample>,
    now: i64,
    v: Seq<bandwidth::IfaceDelta>,
) -> bool {
    &&& new_rows.len() == old_rows.len() + v.len()
    &&& new_rows.take(old_rows.len() as int) == old_rows
    &&& forall|i: int|
        0 <= i < v.len() ==> is_bytes(#[trigger] new_rows[old_rows.len() + i], now, v[i])
}

pub open spec fn is_bytes(s: InterfaceSample, now: i64, d: bandwidth::IfaceDelta) -> bool {
    &&& s.ts == now
    &&& s.iface@ == d.iface@
    &&& s.rx_bytes == Some(monitor::wrap_i64(d.rx_bytes as nat))
    &&& s.tx_bytes == Some(monitor::wrap_i64(d.tx_bytes as nat))
    &&& s.gateway_rtt_ms is None
    &&& s.lan_loss_pct is None
}

/// The devices after each of the entries was seen, one after the other.
pub open spec fn devices_after(
    states: Seq<Seq<Device>>,
    entries: Seq<ArpEntry>,
    now: i64,
) -> bool {
    &&& states.len() == entries.len() + 1
    &&& forall|i: int|
        0 <= i < entries.len() ==> records::device_seen(
            #[trigger] states[i],
            states[i + 1],
            entries[i].mac@,
            entries[i].ip@,
            now,
        )
}

impl Monitor {
    /// Stores a bandwidth reading: the rate and the bytes of each interface.
    pub fn record_bandwidth(&mut self, now: i64, sample: &BandwidthSample)
        requires
            old(self).store.wf(),
        ensures
            final(self).store.wf(),
            final(self).store.bandwidth@ == old(self).store.bandwidth@.push(
                (BandwidthNow {
                    ts: now,
                    rx_bps: monitor::wrap_i64(sample.rx_bps as nat),
                    tx_bps: monitor::wrap_i64(sample.tx_bps as nat),
                }),
            ),
            bytes_added(
                old(self).store.interfaces@,
                final(self).store.interfaces@,
                now,
                sample.per_iface@,
            ),
            rate_noted(old(self).store.bandwidth@, final(self).store.bandwidth@, now, *sample),
            final(self).config == old(self).config,
            final(self).store == (Store {
                bandwidth: final(self).store.bandwidth,
                interfaces: final(self).store.interfaces,
                ..old(self).store
            }),
    {
        self.store.insert_bandwidth_sample(
            now,
            monitor::wrapped(sample.rx_bps as u128),
            monitor::wrapped(sample.tx_bps as u128),
        );
        let ghost mid = *self;
        assert(mid.store.bandwidth@.drop_last() == old(self).store.bandwidth@);
        let ghost before = self.store.interfaces@;
        let mut i: usize = 0;
        assert(before.take(before.len() as int) == before);
        while i < sample.per_iface.len()
            invariant
                i <= sample.per_iface.len(),
                self.store.wf(),
                before == mid.store.interfaces@,
                self.config == mid.config,
                self.store == (Store { interfaces: self.store.interfaces, ..mid.store }),
                bytes_added(
                    before,
                    self.store.interfaces@,
                    now,
                    sample.per_iface@.take(i as int),
                ),
            decreases sample.per_iface.len() - i,
        {
            let ghost cur = self.store.interfaces@;
            let d = &sample.per_iface[i];
            self.store.insert_interface_bytes(
                now,
                d.iface.as_str(),
                monitor::wrapped(d.rx_bytes as u128),
                monitor::wrapped(d.tx_bytes as u128),
            );
            proof {
                let next = self.store.interfaces@;
                assert(next.drop_last() == cur);
                assert(next.take(before.len() as int) == cur.take(before.len() as int));
                assert forall|k: int| 0 <= k < i + 1 implies is_bytes(
                    #[trigger] next[before.len() + k],
                    now,
                    sample.per_iface@.take(i + 1)[k],
                ) by {
                    if k < i {
                        assert(next[before.len() + k] == cur[before.len() + k]);
                        assert(sample.per_iface@.take(i as int)[k] == sample.per_iface@.take(i + 1)[k]);
                    }
                }
            }
            i += 1;
        }
        assert(sample.per_iface@.take(sample.per_iface@.len() as int) == sample.per_iface@);
    }

    /// Stores a ping of the gateway, if there was one.
    pub fn sample_gateway(&mut self, now: i64, ping: Option<PingResult>)
        requires
            old(self).store.wf(),
        ensures
            final(self).store.wf(),
            match ping {
                Some(p) => {
                    let row = final(self).store.interfaces@.last();
                    &&& final(self).store.interfaces@.len() == old(self).store.interfaces@.len() + 1
                    &&& final(self).store.interfaces@.drop_last() == old(self).store.interfaces@
                    &&& row.ts == now && row.iface@ == "gateway"@
                    &&& row.rx_bytes is None && row.tx_bytes is None
                    &&& row.gateway_rtt_ms == p.rtt_avg && row.lan_loss_pct == Some(p.loss_pct)
                },
                None => final(self).store == old(self).store,
            },
            gateway_noted(old(self).store.interfaces@, final(self).store.interfaces@, now, ping),
            final(self).config == old(self).config,
            final(self).store == (Store {
                interfaces: final(self).store.interfaces,
                ..old(self).store
            }),
    {
        if let Some(p) = ping {
            self.store.insert_gateway_sample(now, p.rtt_avg, p.loss_pct);
        }
    }

    /// Stores or refreshes each device of the ARP cache.
    pub fn sample_devices(&mut self, now: i64, entries: &Vec<ArpEntry>)
        requires
            old(self).store.wf(),
            old(self).store.has_room(entries@.len()),
        ensures
            final(self).store.wf(),
            exists|states: Seq<Seq<Device>>|
                #![trigger devices_after(states, entries@, now)]
                devices_after(states, entries@, now) && states[0] == old(self).store.devices@
                    && states[entries@.len() as int] == final(self).store.devices@,
            final(self).config == old(self).config,
            final(self).store == (Store { devices: final(self).store.devices, ..old(self).store }),
    {
        let ghost mut states: Seq<Seq<Device>> = seq![self.store.devices@];
        let mut i: usize = 0;
        while i < entries.len()
            invariant
                i <= entries.len(),
                self.store.wf(),
                entries@.len() < i64::MAX,
                self.config == old(self).config,
                self.store == (Store { devices: self.store.devices, ..old(self).store }),
                devices_after(states, entries@.take(i as int), now),
                states[0] == old(self).store.devices@,
                states[i as int] == self.store.devices@,
                monitor::ids_left(
                    store::device_ids(self.store.devices@),
                    (entries@.len() - i) as nat,
                ),
            decreases entries.len() - i,
        {
            let ghost before = self.store.devices@;
            let e = &entries[i];
            assert(store::next_id(store::device_ids(before)) is Some);
            let _ = self.store.upsert_device(e.mac.as_str(), e.ip.as_str(), now);
            proof {
                let after = self.store.devices@;
                let next = states.push(after);
                assert(next[i + 1] == after);
                assert(next[i as int] == before);
                assert forall|k: int| 0 <= k < i + 1 implies records::device_seen(
                    #[trigger] next[k],
                    next[k + 1],
                    entries@.take(i + 1)[k].mac@,
                    entries@.take(i + 1)[k].ip@,
                    now,
                ) by {
                    if k < i {
                        assert(next[k] == states[k] && next[k + 1] == states[k + 1]);
                        assert(entries@.take(i as int)[k] == entries@.take(i + 1)[k]);
                    }
                }
                states = next;
                records::lemma_device_at(before, e.mac@);
                if records::device_at(before, e.mac@) is Some {
                    assert(store::device_ids(after) == store::device_ids(before));
                } else {
                    assert(after.last().id == store::next_id(store::device_ids(before))->0);
                    assert(store::device_ids(after).last() == after.last().id);
                }
            }
            i += 1;
        }
        assert(entries@.take(entries@.len() as int) == entries@);
        assert(devices_after(states, entries@, now));
    }
}

// ---------------------------------------------------------------------------
// Changes that are worth an event
// ---------------------------------------------------------------------------

/// The payload of a change.
pub open spec fn change_payload(from: Seq<char>, to: Seq<char>) -> Seq<char> {
    "{\"from\":\""@ + from + "\",\"to\":\""@ + to + "\"}"@
}

fn change_text(from: &str, to: &str) -> (r: String)
    ensures
        r@ == change_payload(from@, to@),
{
    let mut out = "{\"from\":\"".to_string();
    out.append(from);
    out.append("\",\"to\":\"");
    out.append(to);
    out.append("\"}");
    out
}

/// One event of a change was added if there was a value before and it differs,
/// otherwise none.
pub open spec fn change_noted(
    old_rows: Seq<rows::Event>,
    new_rows: Seq<rows::Event>,
    now: i64,
    kind: Seq<char>,
    severity: Seq<char>,
    from: Option<Seq<char>>,
    to: Option<Seq<char>>,
) -> bool {
    match (from, to) {
        (Some(a), Some(b)) if a != b => tables::event_added(
            old_rows,
            new_rows,
            now,
            kind,
            severity,
            None,
            Some(change_payload(a, b)),
        ),
        _ => new_rows == old_rows,
    }
}

/// The access point of the newest Wi-Fi sample.
pub open spec fn last_bssid(v: Seq<WifiSample>) -> Option<Seq<char>> {
    match order::newest_kept(rows::stamps(v), tables::all_true(v.len())) {
        Some(i) => text::opt_text(v[i].bssid),
        None => None,
    }
}

pub open spec fn is_wifi_sample(s: WifiSample, now: i64, info: WifiInfo) -> bool {
    &&& s.ts == now
    &&& s.ssid == info.ssid
    &&& s.bssid == info.bssid
    &&& s.rssi_dbm == info.rssi_dbm
    &&& s.quality_pct == info.quality_pct
    &&& s.link_speed_mbps == info.link_mbps
    &&& s.band == info.band
    &&& s.channel == info.channel
}

impl Monitor {
    fn note_change(
        &mut self,
        now: i64,
        kind: &str,
        severity: &str,
        from: &Option<String>,
        to: &Option<String>,
    )
        requires
            old(self).store.wf(),
            monitor::ids_left(store::event_ids(old(self).store.events@), 1),
        ensures
            final(self).store.wf(),
            change_noted(
                old(self).store.events@,
                final(self).store.events@,
                now,
                kind@,
                severity@,
                text::opt_text(*from),
                text::opt_text(*to),
            ),
            final(self).config == old(self).config,
            final(self).store == (Store { events: final(self).store.events, ..old(self).store }),
    {
        if let (Some(a), Some(b)) = (from, to) {
            if !text::same_str(a.as_str(), b.as_str()) {
                let payload = change_text(a.as_str(), b.as_str());
                let _ = self.store.insert_event(now, kind, severity, None, Some(payload.as_str()));
            }
        }
    }

    /// Stores the Wi-Fi link, with a `roam` event when the access point changed.
    pub fn sample_wifi(&mut self, now: i64, info: Option<WifiInfo>)
        requires
            old(self).store.wf(),
            old(self).store.has_room(1),
        ensures
            final(self).store.wf(),
            match info {
                Some(w) => {
                    &&& final(self).store.wifi@.len() == old(self).store.wifi@.len() + 1
                    &&& final(self).store.wifi@.drop_last() == old(self).store.wifi@
                    &&& is_wifi_sample(final(self).store.wifi@.last(), now, w)
                    &&& change_noted(
                        old(self).store.events@,
                        final(self).store.events@,
                        now,
                        "roam"@,
                        "info"@,
                        last_bssid(old(self).store.wifi@),
                        text::opt_text(w.bssid),
                    )
                },
                None => final(self).store == old(self).store,
            },
            wifi_noted(
                old(self).store.wifi@,
                final(self).store.wifi@,
                old(self).store.events@,
                final(self).store.events@,
                now,
                info,
            ),
            final(self).config == old(self).config,
            final(self).store == (Store {
                wifi: final(self).store.wifi,
                events: final(self).store.events,
                ..old(self).store
            }),
    {
        if let Some(w) = info {
            let previous: Option<String> = match self.store.latest_wifi() {
                Some(p) => copy_text(&p.bssid),
                None => None,
            };
            assert(text::opt_text(previous) == last_bssid(self.store.wifi@));
            let bssid = copy_text(&w.bssid);
            let ghost before = self.store.wifi@;
            self.store.insert_wifi_sample(
                &WifiSample {
                    ts: now,
                    ssid: w.ssid,
                    bssid: w.bssid,
                    rssi_dbm: w.rssi_dbm,
                    quality_pct: w.quality_pct,
                    link_speed_mbps: w.link_mbps,
                    band: w.band,
                    channel: w.channel,
                },
            );
            assert(self.store.wifi@.drop_last() == before);
            self.note_change(now, "roam", "info", &previous, &bssid);
        }
    }

    /// Stores the public address, with an event when it changed.
    pub fn sample_public_ip(&mut self, now: i64, ip: Option<String>)
        requires
            old(self).store.wf(),
            old(self).store.has_room(1),
        ensures
            final(self).store.wf(),
            match ip {
                Some(a) => {
                    &&& records::address_added(
                        old(self).store.security@,
                        final(self).store.security@,
                        now,
                        Some(a@),
                    )
                    &&& change_noted(
                        old(self).store.events@,
                        final(self).store.events@,
                        now,
                        "public_ip_change"@,
                        "warn"@,
                        records::public_address(old(self).store.security@),
                        Some(a@),
                    )
                },
                None => final(self).store == old(self).store,
            },
            address_noted(
                old(self).store.security@,
                final(self).store.security@,
                old(self).store.events@,
                final(self).store.events@,
                now,
                text::opt_text(ip),
            ),
            final(self).config == old(self).config,
            final(self).store == (Store {
                security: final(self).store.security,
                events: final(self).store.events,
                ..old(self).store
            }),
    {
        if let Some(a) = ip {
            let previous = self.store.latest_public_ip();
            self.store.insert_public_ip(now, Some(a.as_str()));
            let current = Some(a);
            self.note_change(now, "public_ip_change", "warn", &previous, &current);
        }
    }
}

// ---------------------------------------------------------------------------
// Traceroutes
// ---------------------------------------------------------------------------

/// The addresses of the responding hops, each once, in order.
pub open spec fn distinct_ips(v: Seq<Hop>) -> Seq<Seq<char>>
    decreases v.len(),
{
    if v.len() == 0 {
        Seq::empty()
    } else {
        let before = distinct_ips(v.drop_last());
        match text::opt_text(v.last().ip) {
            Some(ip) if !before.contains(ip) => before.push(ip),
            _ => before,
        }
    }
}

/// The addresses whose network is to be looked up, each once.
pub fn asn_lookups(hops: &Vec<Hop>) -> (r: Vec<String>)
    ensures
        security::texts(r@) == distinct_ips(hops@),
{
    let mut out: Vec<String> = Vec::new();
    let mut i: usize = 0;
    assert(security::texts(out@) == distinct_ips(hops@.take(0)));
    while i < hops.len()
        invariant
            i <= hops.len(),
            security::texts(out@) == distinct_ips(hops@.take(i as int)),
        decreases hops.len() - i,
    {
        assert(hops@.take(i + 1).drop_last() == hops@.take(i as int));
        let ghost before = security::texts(out@);
        if let Some(ip) = &hops[i].ip {
            if find_text(&out, ip.as_str()).is_none() {
                out.push(ip.clone());
                assert(security::texts(out@) == before.push(ip@));
            }
        }
        i += 1;
    }
    assert(hops@.take(hops@.len() as int) == hops@);
    out
}

fn find_text(v: &Vec<String>, s: &str) -> (r: Option<usize>)
    ensures
        match r {
            Some(i) => i < v@.len() && v@[i as int]@ == s@ && forall|k: int|
                0 <= k < i ==> (#[trigger] v@[k])@ != s@,
            None => !security::texts(v@).contains(s@),
        },
        r is Some ==> security::texts(v@).contains(s@),
{
    let ghost t = security::texts(v@);
    let mut i: usize = 0;
    while i < v.len()
        invariant
            i <= v.len(),
            t == security::texts(v@),
            forall|k: int| 0 <= k < i ==> (#[trigger] v@[k])@ != s@,
        decreases v.len() - i,
    {
        if text::same_str(v[i].as_str(), s) {
            assert(t[i as int] == s@);
            return Some(i);
        }
        i += 1;
    }
    assert forall|k: int| 0 <= k < t.len() implies #[trigger] t[k] != s@ by {
        assert(v@[k]@ != s@);
    }
    None
}

/// The network of an address, by the lookups that were made.
pub open spec fn network_of(
    ip: Option<Seq<char>>,
    ips: Seq<Seq<char>>,
    found: Seq<Option<AsInfo>>,
) -> Option<(Seq<char>, Option<Seq<char>>)> {
    match ip {
        Some(a) => {
            let i = ips.index_of(a);
            if ips.contains(a) && 0 <= i < found.len() && found[i] is Some {
                Some(found[i]->0@)
            } else {
                None
            }
        },
        None => None,
    }
}

/// The loss that was measured for a hop; none where the list ends before it.
pub open spec fn loss_at(losses: Seq<Option<Reading>>, i: int) -> Option<Reading> {
    if 0 <= i < losses.len() {
        losses[i]
    } else {
        None
    }
}

/// A hop as it is stored: with its loss and its network, without a host name.
pub open spec fn is_stored_hop(
    t: TracerouteHop,
    h: Hop,
    loss: Option<Reading>,
    ips: Seq<Seq<char>>,
    found: Seq<Option<AsInfo>>,
) -> bool {
    &&& t.hop_no == h.hop_no
    &&& t.ip == h.ip
    &&& t.hostname is None
    &&& t.rtt_ms == h.rtt_ms
    &&& t.loss_pct == loss
    &&& match network_of(text::opt_text(h.ip), ips, found) {
        Some(n) => text::opt_text(t.asn) == Some(n.0) && text::opt_text(t.as_name) == n.1,
        None => t.asn is None && t.as_name is None,
    }
}

fn stored_hops(
    hops: &Vec<Hop>,
    losses: &Vec<Option<Reading>>,
    ips: &Vec<String>,
    found: &Vec<Option<AsInfo>>,
) -> (r: Vec<TracerouteHop>)
    requires
        security::texts(ips@).no_duplicates(),
    ensures
        r@.len() == hops@.len(),
        forall|i: int|
            0 <= i < r@.len() ==> is_stored_hop(
                #[trigger] r@[i],
                hops@[i],
                loss_at(losses@, i),
                security::texts(ips@),
                found@,
            ),
{
    let ghost t = security::texts(ips@);
    let mut out: Vec<TracerouteHop> = Vec::new();
    let mut i: usize = 0;
    while i < hops.len()
        invariant
            i <= hops.len(),
            t == security::texts(ips@),
            t.no_duplicates(),
            out@.len() == i,
            forall|k: int|
                0 <= k < i ==> is_stored_hop(
                    #[trigger] out@[k],
                    hops@[k],
                    loss_at(losses@, k),
                    t,
                    found@,
                ),
        decreases hops.len() - i,
    {
        let h = &hops[i];
        let mut asn: Option<String> = None;
        let mut as_name: Option<String> = None;
        if let Some(ip) = &h.ip {
            if let Some(k) = find_text(ips, ip.as_str()) {
                proof {
                    assert(t[k as int] == ip@);
                    let j = t.index_of(ip@);
                    assert(t.contains(ip@));
                    t.index_of_first_ensures(ip@);
                    assert(0 <= j < t.len() && t[j] == ip@);
                    assert(j == k);
                }
                if k < found.len() {
                    if let Some(n) = &found[k] {
                        asn = Some(n.asn.clone());
                        as_name = copy_text(&n.name);
                    }
                }
            }
        }
        let loss_pct: Option<Reading> = if i < losses.len() { losses[i] } else { None };
        out.push(
            TracerouteHop {
                hop_no: h.hop_no as i64,
                ip: copy_text(&h.ip),
                hostname: None,
                rtt_ms: h.rtt_ms,
                loss_pct,
                asn,
                as_name,
            },
        );
        i += 1;
    }
    out
}

proof fn lemma_distinct(v: Seq<Hop>)
    ensures
        distinct_ips(v).no_duplicates(),
    decreases v.len(),
{
    if v.len() > 0 {
        lemma_distinct(v.drop_last());
    }
}

/// The payload of a route change.
pub open spec fn route_payload(target: Seq<char>, hops: nat) -> Seq<char> {
    "{\"target\":\""@ + target + "\",\"hops\":"@ + number::dec(hops) + "}"@
}

impl Monitor {
    /// Stores a traceroute of the configured target, with the loss of each hop as
    /// far as it was measured and the networks found for `asn_lookups` of the
    /// hops, and an event if the path differs from the last one to that target.
    pub fn sample_traceroute(
        &mut self,
        now: i64,
        trace: Option<TraceResult>,
        losses: &Vec<Option<Reading>>,
        found: &Vec<Option<AsInfo>>,
    )
        requires
            old(self).store.wf(),
            old(self).store.has_room(1),
            trace is Some ==> trace->0.hops@.len() <= i64::MAX,
        ensures
            final(self).store.wf(),
            match trace {
                Some(t) => {
                    let target = old(self).config.traceroute_target@;
                    let last = records::route_to(old(self).store.traceroutes@, target);
                    let saved = final(self).store.traceroutes@.last();
                    &&& exists|hops: Seq<TracerouteHop>|
                        #![trigger records::by_number(hops)]
                        hops.len() == t.hops@.len() && (forall|i: int|
                            0 <= i < hops.len() ==> is_stored_hop(
                                #[trigger] hops[i],
                                t.hops@[i],
                                loss_at(losses@, i),
                                distinct_ips(t.hops@),
                                found@,
                            )) && records::trace_added(
                            old(self).store.traceroutes@,
                            final(self).store.traceroutes@,
                            saved.id,
                            now,
                            target,
                            t.route_hash@,
                            hops,
                        )
                    &&& if last is Some && last->0 != t.route_hash@ {
                        tables::event_added(
                            old(self).store.events@,
                            final(self).store.events@,
                            now,
                            "route_change"@,
                            "warn"@,
                            None,
                            Some(route_payload(target, t.hops@.len())),
                        )
                    } else {
                        final(self).store.events@ == old(self).store.events@
                    }
                },
                None => final(self).store == old(self).store,
            },
            route_noted(
                old(self).store.traceroutes@,
                final(self).store.traceroutes@,
                old(self).store.events@,
                final(self).store.events@,
                now,
                old(self).config.traceroute_target@,
                trace,
            ),
            final(self).config == old(self).config,
            final(self).store == (Store {
                traceroutes: final(self).store.traceroutes,
                events: final(self).store.events,
                ..old(self).store
            }),
    {
        let t = match trace {
            Some(t) => t,
            None => {
                return;
            },
        };
        let previous = self.store.last_route_hash(self.config.traceroute_target.as_str());
        let ips = asn_lookups(&t.hops);
        proof {
            lemma_distinct(t.hops@);
        }
        let hops = stored_hops(&t.hops, losses, &ips, found);
        let ghost by = records::by_number(hops@);
        let _ = self.store.save_traceroute(
            now,
            self.config.traceroute_target.as_str(),
            t.route_hash.as_str(),
            &hops,
        );
        if let Some(p) = previous {
            if !text::same_str(p.as_str(), t.route_hash.as_str()) {
                let mut payload = "{\"target\":\"".to_string();
                payload.append(self.config.traceroute_target.as_str());
                payload.append("\",\"hops\":");
                number::push_u64(&mut payload, t.hops.len() as u64);
                payload.append("}");
                let _ = self.store.insert_event(
                    now,
                    "route_change",
                    "warn",
                    None,
                    Some(payload.as_str()),
                );
            }
        }
    }
}

// ---------------------------------------------------------------------------
// Security posture
// ---------------------------------------------------------------------------

/// What the security probes found.
pub struct Posture {
    pub nat_type: Option<String>,
    pub upnp_enabled: Option<bool>,
    pub firewall_active: Option<bool>,
    pub vpn: Option<VpnStatus>,
    pub doh: bool,
    pub dot: bool,
    pub open_ports: Vec<u16>,
}

pub open spec fn is_posture(
    s: SecuritySnapshot,
    now: i64,
    p: Posture,
    public_ip: Option<Seq<char>>,
) -> bool {
    &&& s.ts == now
    &&& text::opt_text(s.public_ip) == public_ip
    &&& s.nat_type == p.nat_type
    &&& s.upnp_enabled == p.upnp_enabled
    &&& s.firewall_active == p.firewall_active
    &&& s.vpn_detected == (match p.vpn {
        Some(v) => Some(v.active),
        None => None,
    })
    &&& s.doh_active == Some(p.doh)
    &&& s.dot_active == Some(p.dot)
    &&& text::opt_text(s.open_ports) == Some(
        seq!['['] + security::comma_list(p.open_ports@) + seq![']'],
    )
}

impl Monitor {
    /// Stores a security-posture snapshot, with the last known public address.
    pub fn sample_security(&mut self, now: i64, p: Posture)
        requires
            old(self).store.wf(),
        ensures
            final(self).store.wf(),
            final(self).store.security@.len() == old(self).store.security@.len() + 1,
            final(self).store.security@.drop_last() == old(self).store.security@,
            is_posture(
                final(self).store.security@.last(),
                now,
                p,
                records::public_address(old(self).store.security@),
            ),
            final(self).config == old(self).config,
            final(self).store == (Store { security: final(self).store.security, ..old(self).store }),
    {
        let ghost before = self.store.security@;
        let public_ip = self.store.latest_public_ip();
        let vpn_detected = match &p.vpn {
            Some(v) => Some(v.active),
            None => None,
        };
        self.store.insert_security_snapshot(
            &SecuritySnapshot {
                ts: now,
                public_ip,
                nat_type: p.nat_type,
                upnp_enabled: p.upnp_enabled,
                firewall_active: p.firewall_active,
                vpn_detected,
                doh_active: Some(p.doh),
                dot_active: Some(p.dot),
                open_ports: security::ports_json(&p.open_ports),
            },
        );
        assert(self.store.security@.drop_last() == before);
    }
}

// ---------------------------------------------------------------------------
// What the samples leave behind
// ---------------------------------------------------------------------------

/// A bandwidth sample was recorded.
pub open spec fn rate_noted(
    old_rows: Seq<BandwidthNow>,
    new_rows: Seq<BandwidthNow>,
    now: i64,
    sample: BandwidthSample,
) -> bool {
    &&& new_rows.len() == old_rows.len() + 1
    &&& new_rows.drop_last() == old_rows
    &&& new_rows.last().ts == now
    &&& new_rows.last().rx_bps == monitor::wrap_i64(sample.rx_bps as nat)
    &&& new_rows.last().tx_bps == monitor::wrap_i64(sample.tx_bps as nat)
}

/// A ping of the gateway was recorded; without one nothing is.
pub open spec fn gateway_noted(
    old_rows: Seq<InterfaceSample>,
    new_rows: Seq<InterfaceSample>,
    now: i64,
    ping: Option<PingResult>,
) -> bool {
    match ping {
        Some(p) => {
            &&& new_rows.len() == old_rows.len() + 1
            &&& new_rows.drop_last() == old_rows
            &&& new_rows.last().ts == now
            &&& new_rows.last().iface@ == "gateway"@
            &&& new_rows.last().rx_bytes is None && new_rows.last().tx_bytes is None
            &&& new_rows.last().gateway_rtt_ms == p.rtt_avg
            &&& new_rows.last().lan_loss_pct == Some(p.loss_pct)
        },
        None => new_rows == old_rows,
    }
}

/// A wireless link was recorded, with an event where it roamed; without a link
/// nothing is.
pub open spec fn wifi_noted(
    old_rows: Seq<WifiSample>,
    new_rows: Seq<WifiSample>,
    old_events: Seq<rows::Event>,
    new_events: Seq<rows::Event>,
    now: i64,
    info: Option<WifiInfo>,
) -> bool {
    match info {
        Some(w) => {
            &&& new_rows.len() == old_rows.len() + 1
            &&& new_rows.drop_last() == old_rows
            &&& is_wifi_sample(new_rows.last(), now, w)
            &&& change_noted(
                old_events,
                new_events,
                now,
                "roam"@,
                "info"@,
                last_bssid(old_rows),
                text::opt_text(w.bssid),
            )
        },
        None => new_rows == old_rows && new_events == old_events,
    }
}

/// A public address was recorded, with an event where it changed; without an address
/// nothing is.
pub open spec fn address_noted(
    old_rows: Seq<SecuritySnapshot>,
    new_rows: Seq<SecuritySnapshot>,
    old_events: Seq<rows::Event>,
    new_events: Seq<rows::Event>,
    now: i64,
    ip: Option<Seq<char>>,
) -> bool {
    match ip {
        Some(a) => {
            &&& records::address_added(old_rows, new_rows, now, ip)
            &&& change_noted(
                old_events,
                new_events,
                now,
                "public_ip_change"@,
                "warn"@,
                records::public_address(old_rows),
                ip,
            )
        },
        None => new_rows == old_rows && new_events == old_events,
    }
}

/// A traceroute was recorded under its target, with an event where the route changed;
/// without a trace nothing is.
pub open spec fn route_noted(
    old_rows: Seq<rows::TracerouteView>,
    new_rows: Seq<rows::TracerouteView>,
    old_events: Seq<rows::Event>,
    new_events: Seq<rows::Event>,
    now: i64,
    target: Seq<char>,
    trace: Option<TraceResult>,
) -> bool {
    match trace {
        Some(t) => {
            let last = records::route_to(old_rows, target);
            &&& new_rows.len() == old_rows.len() + 1
            &&& new_rows.drop_last() == old_rows
            &&& new_rows.last().ts == now
            &&& new_rows.last().target@ == target
            &&& new_rows.last().route_hash@ == t.route_hash@
            &&& new_rows.last().hop_count == t.hops@.len()
            &&& if last is Some && last->0 != t.route_hash@ {
                tables::event_added(
                    old_events,
                    new_events,
                    now,
                    "route_change"@,
                    "warn"@,
                    None,
                    Some(route_payload(target, t.hops@.len())),
                )
            } else {
                new_events == old_events
            }
        },
        None => new_rows == old_rows && new_events == old_events,
    }
}

/// Rates are recorded as measured, as far as the number holds them.
pub proof fn law_rates_are_recorded(
    old_rows: Seq<BandwidthNow>,
    new_rows: Seq<BandwidthNow>,
    now: i64,
    sample: BandwidthSample,
)
    requires
        rate_noted(old_rows, new_rows, now, sample),
    ensures
        new_rows.len() == old_rows.len() + 1,
        new_rows.take(old_rows.len() as int) == old_rows,
        new_rows.last().ts == now,
        sample.rx_bps <= i64::MAX ==> new_rows.last().rx_bps == sample.rx_bps,
        sample.tx_bps <= i64::MAX ==> new_rows.last().tx_bps == sample.tx_bps,
{
    monitor::law_times_wrap(sample.rx_bps as nat);
    monitor::law_times_wrap(sample.tx_bps as nat);
    assert(new_rows.take(old_rows.len() as int) == new_rows.drop_last());
}

/// A ping of the gateway is the newest that is read back, moves no bytes, and is noted
/// under the name "gateway".
pub proof fn law_gateway_ping_is_read_back(
    old_rows: Seq<InterfaceSample>,
    new_rows: Seq<InterfaceSample>,
    now: i64,
    ping: PingResult,
    since: i64,
)
    requires
        gateway_noted(old_rows, new_rows, now, Some(ping)),
        forall|i: int| 0 <= i < old_rows.len() ==> (#[trigger] old_rows[i]).ts <= now,
    ensures
        new_rows.last().iface@ == "gateway"@,
        tables::newest_where(new_rows, tables::gateway_rows(new_rows)) == Some(new_rows.last()),
        new_rows.last().ts == now,
        new_rows.last().gateway_rtt_ms == ping.rtt_avg,
        new_rows.last().lan_loss_pct == Some(ping.loss_pct),
        tables::rx_since(new_rows, since) == tables::rx_since(old_rows, since),
        tables::tx_since(new_rows, since) == tables::tx_since(old_rows, since),
{
    let keep = tables::gateway_rows(new_rows);
    let n = old_rows.len() as int;
    assert forall|i: int| 0 <= i < n implies #[trigger] new_rows[i] == old_rows[i] by {
        assert(new_rows.drop_last()[i] == new_rows[i]);
    }
    assert(new_rows[n] == new_rows.last());
    assert(keep[n]);
    order::law_newest_kept(rows::stamps(new_rows), keep);
    let i = order::newest_kept(rows::stamps(new_rows), keep)->0;
    assert(rows::stamps(new_rows)[n] == now);
    if i < n {
        assert(rows::stamps(new_rows)[i] == old_rows[i].ts);
    }
}

/// Whether a change is noted: both values are known and they differ. The event tells
/// them both.
pub proof fn law_changes_are_noted_when_known(
    old_rows: Seq<rows::Event>,
    new_rows: Seq<rows::Event>,
    now: i64,
    kind: Seq<char>,
    severity: Seq<char>,
    from: Option<Seq<char>>,
    to: Option<Seq<char>>,
)
    requires
        change_noted(old_rows, new_rows, now, kind, severity, from, to),
    ensures
        new_rows.len() == old_rows.len() + 1 <==> from is Some && to is Some && from != to,
        new_rows.len() == old_rows.len() <==> new_rows == old_rows,
        new_rows.take(old_rows.len() as int) == old_rows,
        new_rows.len() > old_rows.len() ==> {
            let e = new_rows.last();
            &&& e.ts == now
            &&& e.kind@ == kind
            &&& e.severity@ == severity
            &&& e.duration_ms is None
            &&& e.payload is Some
            &&& e.payload->0@ == "{\"from\":\""@ + from->0 + "\",\"to\":\""@ + to->0 + "\"}"@
        },
{
    if new_rows.len() > old_rows.len() {
        assert(new_rows.take(old_rows.len() as int) == new_rows.drop_last());
    } else {
        assert(new_rows.take(old_rows.len() as int) == new_rows);
    }
}

/// A link is recorded as it was read. The device roamed where the access point of the
/// newest sample and the present one are known and differ.
pub proof fn law_roaming_is_noted(
    old_rows: Seq<WifiSample>,
    new_rows: Seq<WifiSample>,
    old_events: Seq<rows::Event>,
    new_events: Seq<rows::Event>,
    now: i64,
    w: WifiInfo,
    before: WifiSample,
)
    requires
        wifi_noted(old_rows, new_rows, old_events, new_events, now, Some(w)),
        tables::newest_in(old_rows) == Some(before),
    ensures
        new_rows.last().ts == now,
        new_rows.last().ssid == w.ssid,
        new_rows.last().bssid == w.bssid,
        new_rows.last().rssi_dbm == w.rssi_dbm,
        new_rows.last().quality_pct == w.quality_pct,
        new_rows.last().link_speed_mbps == w.link_mbps,
        new_rows.last().band == w.band,
        new_rows.last().channel == w.channel,
        new_events.len() == old_events.len() + 1 <==> before.bssid is Some && w.bssid is Some
            && before.bssid->0@ != w.bssid->0@,
        new_events.len() > old_events.len() ==> new_events.last().kind@ == "roam"@
            && new_events.last().severity@ == "info"@ && new_events.last().ts == now,
{
    law_changes_are_noted_when_known(
        old_events,
        new_events,
        now,
        "roam"@,
        "info"@,
        last_bssid(old_rows),
        text::opt_text(w.bssid),
    );
}

/// A new public address is read back. It is worth a warning where another was known
/// before; the same address again, or the first one, is not.
pub proof fn law_new_addresses_are_noted(
    old_rows: Seq<SecuritySnapshot>,
    new_rows: Seq<SecuritySnapshot>,
    old_events: Seq<rows::Event>,
    new_events: Seq<rows::Event>,
    now: i64,
    ip: Seq<char>,
)
    requires
        address_noted(old_rows, new_rows, old_events, new_events, now, Some(ip)),
        forall|i: int| 0 <= i < old_rows.len() ==> (#[trigger] old_rows[i]).ts <= now,
    ensures
        records::public_address(new_rows) == Some(ip),
        new_events.len() == old_events.len() + 1 <==> records::public_address(old_rows) is Some
            && records::public_address(old_rows) != Some(ip),
        new_events.len() > old_events.len() ==> new_events.last().kind@ == "public_ip_change"@
            && new_events.last().severity@ == "warn"@ && new_events.last().ts == now,
{
    records::law_noted_address_is_read_back(old_rows, new_rows, now, Some(ip));
    law_changes_are_noted_when_known(
        old_events,
        new_events,
        now,
        "public_ip_change"@,
        "warn"@,
        records::public_address(old_rows),
        Some(ip),
    );
}

/// A route is read back once it was recorded. A route other than the last known to the
/// target is worth a warning; the same one again, or the first one, is not.
pub proof fn law_route_changes_are_noted(
    old_rows: Seq<rows::TracerouteView>,
    new_rows: Seq<rows::TracerouteView>,
    old_events: Seq<rows::Event>,
    new_events: Seq<rows::Event>,
    now: i64,
    target: Seq<char>,
    trace: TraceResult,
)
    requires
        route_noted(old_rows, new_rows, old_events, new_events, now, target, Some(trace)),
        forall|i: int| 0 <= i < old_rows.len() ==> (#[trigger] old_rows[i]).ts <= now,
    ensures
        records::route_to(new_rows, target) == Some(trace.route_hash@),
        new_rows.last().hop_count == trace.hops@.len(),
        new_events.len() == old_events.len() + 1 <==> records::route_to(old_rows, target) is Some
            && records::route_to(old_rows, target) != Some(trace.route_hash@),
        new_events.len() == old_events.len() <==> new_events == old_events,
        new_events.len() > old_events.len() ==> {
            let e = new_events.last();
            &&& e.ts == now
            &&& e.kind@ == "route_change"@
            &&& e.severity@ == "warn"@
            &&& e.payload is Some
            &&& e.payload->0@ == "{\"target\":\""@ + target + "\",\"hops\":"@ + number::dec(
                trace.hops@.len(),
            ) + "}"@
        },
{
    let n = old_rows.len() as int;
    let keep = records::traces_to(new_rows, target);
    assert forall|i: int| 0 <= i < n implies #[trigger] new_rows[i] == old_rows[i] by {
        assert(new_rows.drop_last()[i] == new_rows[i]);
    }
    assert(new_rows[n] == new_rows.last());
    assert(keep[n]);
    order::law_newest_kept(rows::stamps(new_rows), keep);
    let i = order::newest_kept(rows::stamps(new_rows), keep)->0;
    assert(rows::stamps(new_rows)[n] == now);
    if i < n {
        assert(rows::stamps(new_rows)[i] == old_rows[i].ts);
    }
}

/// Nothing that could not be measured leaves a trace.
pub proof fn law_missing_samples_change_nothing(
    interfaces: (Seq<InterfaceSample>, Seq<InterfaceSample>),
    wifi: (Seq<WifiSample>, Seq<WifiSample>),
    security: (Seq<SecuritySnapshot>, Seq<SecuritySnapshot>),
    traces: (Seq<rows::TracerouteView>, Seq<rows::TracerouteView>),
    events: (Seq<rows::Event>, Seq<rows::Event>),
    now: i64,
    target: Seq<char>,
)
    ensures
        gateway_noted(interfaces.0, interfaces.1, now, None) ==> interfaces.1 == interfaces.0,
        wifi_noted(wifi.0, wifi.1, events.0, events.1, now, None) ==> wifi.1 == wifi.0 && events.1
            == events.0,
        address_noted(security.0, security.1, events.0, events.1, now, None) ==> security.1
            == security.0 && events.1 == events.0,
        route_noted(traces.0, traces.1, events.0, events.1, now, target, None) ==> traces.1
            == traces.0 && events.1 == events.0,
{
}

/// Lookups are recorded as they came, one row each, behind the others.
pub proof fn law_each_lookup_is_recorded(
    old_rows: Seq<DnsSample>,
    new_rows: Seq<DnsSample>,
    now: i64,
    results: Seq<DnsResult>,
    i: int,
)
    requires
        lookups_added(old_rows, new_rows, now, results),
        0 <= i < results.len(),
    ensures
        new_rows.len() == old_rows.len() + results.len(),
        new_rows.take(old_rows.len() as int) == old_rows,
        ({
            let s = new_rows[old_rows.len() + i];
            &&& s.ts == now
            &&& s.resolver@ == results[i].resolver@
            &&& s.query_host@ == results[i].query_host@
            &&& s.lookup_ms == results[i].lookup_ms
            &&& s.success == results[i].success
            &&& s.cached is None
        }),
{
    assert(is_lookup(new_rows[old_rows.len() + i], now, results[i]));
}

/// The hit rate is the percentage of hits among what was counted since the last time,
/// rounded down to a billionth. A counter that fell counts as unchanged. There is no
/// rate where nothing was counted or no earlier count is known.
pub proof fn law_hit_rate_is_a_share(cur: DnsCacheStats, hits: int, misses: int)
    ensures
        ({
            let unit: int = 1_000_000_000;
            let h = if cur.hits * unit > hits {
                cur.hits * unit - hits
            } else {
                0
            };
            let m = if cur.misses * unit > misses {
                cur.misses * unit - misses
            } else {
                0
            };
            let r = hit_rate(cur, Some(hits), Some(misses));
            &&& r is Some <==> h > 0 || m > 0
            &&& r is Some ==> r->0 * (h + m) <= 100 * unit * h < (r->0 + 1) * (h + m)
        }),
        hit_rate(cur, None, Some(misses)) is None,
        hit_rate(cur, Some(hits), None) is None,
        hit_rate(cur, None, None) is None,
{
    let h = risen(cur.hits, hits);
    let m = risen(cur.misses, misses);
    if h + m > 0 {
        let n = h + m;
        let x = h * 100_000_000_000;
        let q = x / n;
        vstd::arithmetic::div_mod::lemma_fundamental_div_mod(x, n);
        assert(q * n == n * q) by (nonlinear_arith);
        assert((q + 1) * n == n * q + n) by (nonlinear_arith);
        assert(q >= 0) by (nonlinear_arith)
            requires
                q == x / n,
                n > 0,
                x >= 0,
        ;
    }
}

/// The counts of a sample are what the next one is held against.
pub proof fn law_counts_are_kept_for_the_next_sample(
    old_rows: Seq<rows::Setting>,
    new_rows: Seq<rows::Setting>,
    cur: DnsCacheStats,
    now: i64,
)
    requires
        store::keys_differ(old_rows),
        tables::setting(old_rows, "dns.cache_stats"@) == Some(number::dec_int(1)),
        cache_settings(old_rows, new_rows, Some(cur), now),
    ensures
        stored_counter(tables::setting(new_rows, "dns.cache_hits"@)) == Some(
            cur.hits * 1_000_000_000,
        ),
        stored_counter(tables::setting(new_rows, "dns.cache_misses"@)) == Some(
            cur.misses * 1_000_000_000,
        ),
{
    reveal_strlit("dns.cache_hits");
    reveal_strlit("dns.cache_misses");
    reveal_strlit("dns.cache_hit_rate");
    assert("dns.cache_hits"@.len() == 14);
    assert("dns.cache_misses"@.len() == 16);
    assert("dns.cache_hit_rate"@.len() == 18);
    display::lemma_number_is_trimmed(1);
    number::law_integers_round_trip(1);
    display::lemma_number_is_trimmed(cur.hits);
    number::law_integers_round_trip(cur.hits);
    display::lemma_number_is_trimmed(cur.misses);
    number::law_integers_round_trip(cur.misses);
    let (a, b) = choose|a: Seq<rows::Setting>, b: Seq<rows::Setting>| #[trigger]
        cache_steps(old_rows, a, b, new_rows, cur, now);
    let rate = hit_rate(
        cur,
        stored_counter(tables::setting(old_rows, "dns.cache_hits"@)),
        stored_counter(tables::setting(old_rows, "dns.cache_misses"@)),
    );
    if rate is Some {
        tables::lemma_keys_still_differ(
            old_rows,
            a,
            "dns.cache_hit_rate"@,
            export::plain(rate->0),
            now,
        );
    }
    let hits = number::dec_int(cur.hits as int);
    let misses = number::dec_int(cur.misses as int);
    tables::lemma_keys_still_differ(a, b, "dns.cache_hits"@, hits, now);
    tables::law_settings_read_back(a, b, "dns.cache_hits"@, hits, now, "dns.cache_hits"@);
    tables::law_settings_read_back(
        b,
        new_rows,
        "dns.cache_misses"@,
        misses,
        now,
        "dns.cache_hits"@,
    );
}

/// The counts are only kept where the setting says 1.
pub proof fn law_counts_are_kept_on_request(
    old_rows: Seq<rows::Setting>,
    new_rows: Seq<rows::Setting>,
    cache: Option<DnsCacheStats>,
    now: i64,
)
    requires
        cache_settings(old_rows, new_rows, cache, now),
        tables::setting(old_rows, "dns.cache_stats"@) is None || number::parse_i64(
            text::trim(tables::setting(old_rows, "dns.cache_stats"@)->0),
        ) != Some(1i64) || cache is None,
    ensures
        new_rows == old_rows,
{
}

/// A name is looked up for a minute, and the next one in the minute after it.
pub proof fn law_names_change_every_minute(now: int)
    requires
        now >= 0,
    ensures
        minute(now) * 60_000 <= now < (minute(now) + 1) * 60_000,
        minute(now + 60_000) == minute(now) + 1,
        lookup_hosts().len() == 4,
        lookup_hosts()[0] == "example.com"@,
        lookup_hosts()[1] == "wikipedia.org"@,
        lookup_hosts()[2] == "github.com"@,
        lookup_hosts()[3] == "cloudflare.com"@,
{
}

/// The resolvers that are compared with the system's own.
pub proof fn law_compared_resolvers()
    ensures
        compared_resolvers().len() == 3,
        compared_resolvers()[0] == ("Cloudflare"@, "1.1.1.1"@),
        compared_resolvers()[1] == ("Google"@, "8.8.8.8"@),
        compared_resolvers()[2] == ("Quad9"@, "9.9.9.9"@),
{
}

/// The bytes of each interface are recorded under its name, as far as the number holds
/// them.
pub proof fn law_each_interface_is_recorded(
    old_rows: Seq<InterfaceSample>,
    new_rows: Seq<InterfaceSample>,
    now: i64,
    v: Seq<bandwidth::IfaceDelta>,
    i: int,
)
    requires
        bytes_added(old_rows, new_rows, now, v),
        0 <= i < v.len(),
    ensures
        new_rows.len() == old_rows.len() + v.len(),
        new_rows.take(old_rows.len() as int) == old_rows,
        ({
            let s = new_rows[old_rows.len() + i];
            &&& s.ts == now
            &&& s.iface@ == v[i].iface@
            &&& s.rx_bytes is Some && s.tx_bytes is Some
            &&& v[i].rx_bytes <= i64::MAX ==> s.rx_bytes->0 == v[i].rx_bytes
            &&& v[i].tx_bytes <= i64::MAX ==> s.tx_bytes->0 == v[i].tx_bytes
            &&& s.gateway_rtt_ms is None && s.lan_loss_pct is None
        }),
{
    assert(is_bytes(new_rows[old_rows.len() + i], now, v[i]));
    monitor::law_times_wrap(v[i].rx_bytes as nat);
    monitor::law_times_wrap(v[i].tx_bytes as nat);
}

/// Each address of a trace is looked up once, in the order in which it first comes.
pub proof fn law_each_address_is_looked_up_once(a: Seq<Hop>, b: Seq<Hop>, ip: Seq<char>)
    ensures
        distinct_ips(a + b).contains(ip) <==> exists|i: int|
            0 <= i < (a + b).len() && text::opt_text((#[trigger] (a + b)[i]).ip) == Some(ip),
        distinct_ips(a + b).no_duplicates(),
        distinct_ips(a).is_prefix_of(distinct_ips(a + b)),
    decreases b.len(),
{
    let v = a + b;
    if b.len() == 0 {
        assert(v == a);
        lemma_distinct_ips(a, ip);
    } else {
        law_each_address_is_looked_up_once(a, b.drop_last(), ip);
        assert(v.drop_last() == a + b.drop_last());
        lemma_distinct_ips(v, ip);
    }
}

proof fn lemma_distinct_ips(v: Seq<Hop>, ip: Seq<char>)
    ensures
        distinct_ips(v).contains(ip) <==> exists|i: int|
            0 <= i < v.len() && text::opt_text((#[trigger] v[i]).ip) == Some(ip),
        distinct_ips(v).no_duplicates(),
    decreases v.len(),
{
    if v.len() > 0 {
        let w = v.drop_last();
        let before = distinct_ips(w);
        let r = distinct_ips(v);
        lemma_distinct_ips(w, ip);
        assert forall|i: int| 0 <= i < w.len() implies w[i] == #[trigger] v[i] by {}
        assert(v[v.len() - 1] == v.last());
        if r != before {
            let x = text::opt_text(v.last().ip)->0;
            assert(r == before.push(x));
            assert(r[r.len() - 1] == x);
            if before.contains(ip) {
                let k = choose|k: int| 0 <= k < before.len() && before[k] == ip;
                assert(r[k] == ip);
            }
            if r.contains(ip) && ip != x {
                let k = choose|k: int| 0 <= k < r.len() && r[k] == ip;
                assert(before[k] == ip);
            }
        }
        if exists|i: int| 0 <= i < v.len() && text::opt_text((#[trigger] v[i]).ip) == Some(ip) {
            let i = choose|i: int|
                0 <= i < v.len() && text::opt_text((#[trigger] v[i]).ip) == Some(ip);
            if i < w.len() {
                assert(text::opt_text(w[i].ip) == Some(ip));
            }
        }
        if exists|i: int| 0 <= i < w.len() && text::opt_text((#[trigger] w[i]).ip) == Some(ip) {
            let i = choose|i: int|
                0 <= i < w.len() && text::opt_text((#[trigger] w[i]).ip) == Some(ip);
            assert(text::opt_text(v[i].ip) == Some(ip));
        }
    }
}

/// A stored hop is the measured one, with the loss of its own measurement and the
/// network that was found for its own address.
pub proof fn law_hops_are_stored_as_measured(
    t: TracerouteHop,
    h: Hop,
    losses: Seq<Option<Reading>>,
    n: int,
    ips: Seq<Seq<char>>,
    found: Seq<Option<AsInfo>>,
    i: int,
)
    requires
        is_stored_hop(t, h, loss_at(losses, n), ips, found),
        ips.no_duplicates(),
        0 <= i < ips.len(),
        i < found.len(),
        0 <= n < losses.len(),
        h.ip is Some && h.ip->0@ == ips[i],
    ensures
        t.hop_no == h.hop_no,
        t.ip == h.ip,
        t.rtt_ms == h.rtt_ms,
        t.loss_pct == losses[n],
        t.hostname is None,
        found[i] is None ==> t.asn is None && t.as_name is None,
        found[i] is Some ==> text::opt_text(t.asn) == Some(found[i]->0@.0) && text::opt_text(
            t.as_name,
        ) == found[i]->0@.1,
{
    assert(ips.contains(ips[i]));
    ips.index_of_first_ensures(ips[i]);
    let k = ips.index_of(ips[i]);
    assert(ips[k] == ips[i]);
}

/// A posture is stored with the last known public address and as it was found.
pub proof fn law_postures_are_stored_as_found(
    s: SecuritySnapshot,
    now: i64,
    p: Posture,
    public_ip: Option<Seq<char>>,
)
    requires
        is_posture(s, now, p, public_ip),
    ensures
        s.ts == now,
        text::opt_text(s.public_ip) == public_ip,
        s.nat_type == p.nat_type,
        s.upnp_enabled == p.upnp_enabled,
        s.firewall_active == p.firewall_active,
        s.vpn_detected is Some <==> p.vpn is Some,
        p.vpn is Some ==> s.vpn_detected->0 == p.vpn->0.active,
        s.doh_active == Some(p.doh),
        s.dot_active == Some(p.dot),
        s.open_ports is Some,
        s.open_ports->0@ == seq!['['] + security::comma_list(p.open_ports@) + seq![']'],
{
}

/// Whether the user asked for cache counters.
pub open spec fn counts_are_wanted(v: Seq<rows::Setting>) -> bool {
    tables::setting_i64(v, "dns.cache_stats"@) == Some(1i64)
}

/// Counters are only read where the setting is 1, and only then they are kept.
pub proof fn law_counts_are_wanted_by_setting(
    old_rows: Seq<rows::Setting>,
    new_rows: Seq<rows::Setting>,
    cache: Option<DnsCacheStats>,
    now: i64,
)
    ensures
        tables::setting(old_rows, "dns.cache_stats"@) is None ==> !counts_are_wanted(old_rows),
        counts_are_wanted(old_rows) <==> tables::setting(old_rows, "dns.cache_stats"@) is Some
            && number::parse_i64(text::trim(tables::setting(old_rows, "dns.cache_stats"@)->0))
            == Some(1i64),
        cache_settings(old_rows, new_rows, cache, now) && !counts_are_wanted(old_rows) ==> new_rows
            == old_rows,
{
}

} // verus!
