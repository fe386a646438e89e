//! Devices, traceroutes, security snapshots, DNS samples and quality scores.

use vstd::prelude::*;

use crate::order;
use crate::rows;
use crate::rows::{
    own_text, Device, DnsSample, QoeScore, SecuritySnapshot, TracerouteHop, TracerouteView,
};
use crate::store;
use crate::store::{Store, StoreError};
use crate::tables;
use crate::tables::{newest_row, newest_rows, trues};
use crate::text;

verus! {

// ---------------------------------------------------------------------------
// Devices
// ---------------------------------------------------------------------------

/// Where the device with this MAC stands.
pub open spec fn device_at(v: Seq<Device>, mac: Seq<char>) -> Option<int>
    decreases v.len(),
{
    if v.len() == 0 {
        None
    } else if text::opt_text(v.last().mac) == Some(mac) {
        Some(v.len() - 1)
    } else {
        device_at(v.drop_last(), mac)
    }
}

pub proof fn lemma_device_at(v: Seq<Device>, mac: Seq<char>)
    ensures
        match device_at(v, mac) {
            Some(i) => 0 <= i < v.len() && text::opt_text(v[i].mac) == Some(mac),
            None => forall|j: int|
                0 <= j < v.len() ==> text::opt_text((#[trigger] v[j]).mac) != Some(mac),
        },
    decreases v.len(),
{
    if v.len() > 0 && text::opt_text(v.last().mac) != Some(mac) {
        let d = v.drop_last();
        lemma_device_at(d, mac);
        assert forall|j: int| 0 <= j < d.len() implies d[j] == #[trigger] v[j] by {}
    }
}

/// The device with this MAC was seen: refreshed where it stands, or added under
/// a new identifier.
pub open spec fn device_seen(
    old_rows: Seq<Device>,
    new_rows: Seq<Device>,
    mac: Seq<char>,
    ip: Seq<char>,
    now: i64,
) -> bool {
    match device_at(old_rows, mac) {
        Some(i) => {
            &&& new_rows == old_rows.update(i, new_rows[i])
            &&& new_rows[i] == (Device {
                ip: new_rows[i].ip,
                last_seen: now,
                is_active: true,
                ..old_rows[i]
            })
            &&& text::opt_text(new_rows[i].ip) == Some(ip)
        },
        None => {
            &&& new_rows.len() == old_rows.len() + 1
            &&& new_rows.drop_last() == old_rows
            &&& store::next_id(store::device_ids(old_rows)) == Some(new_rows.last().id)
            &&& text::opt_text(new_rows.last().mac) == Some(mac)
            &&& text::opt_text(new_rows.last().ip) == Some(ip)
            &&& new_rows.last().hostname is None && new_rows.last().vendor is None
            &&& new_rows.last().first_seen == now && new_rows.last().last_seen == now
            &&& new_rows.last().is_active
        },
    }
}

/// Seeing a device leaves it known with its new address and time, makes no
/// second row for a MAC that is known, and leaves every other device as it is.
pub proof fn law_seen_devices_are_known_once(
    old_rows: Seq<Device>,
    new_rows: Seq<Device>,
    mac: Seq<char>,
    ip: Seq<char>,
    now: i64,
)
    requires
        store::macs_differ(old_rows),
        device_seen(old_rows, new_rows, mac, ip, now),
    ensures
        device_at(old_rows, mac) is Some ==> new_rows.len() == old_rows.len(),
        device_at(old_rows, mac) is None ==> new_rows.len() == old_rows.len() + 1,
        device_at(new_rows, mac) is Some,
        new_rows[device_at(new_rows, mac)->0].last_seen == now,
        text::opt_text(new_rows[device_at(new_rows, mac)->0].ip) == Some(ip),
        forall|i: int|
            0 <= i < old_rows.len() && text::opt_text((#[trigger] old_rows[i]).mac) != Some(mac)
                ==> new_rows[i] == old_rows[i],
{
    lemma_device_at(old_rows, mac);
    lemma_device_at(new_rows, mac);
    match device_at(old_rows, mac) {
        Some(i) => {
            assert(text::opt_text(new_rows[i].mac) == Some(mac));
            let j = device_at(new_rows, mac)->0;
            if j != i {
                assert(new_rows[j] == old_rows[j]);
                if i < j {
                    assert(text::opt_text(old_rows[i].mac) != text::opt_text(old_rows[j].mac));
                } else {
                    assert(text::opt_text(old_rows[j].mac) != text::opt_text(old_rows[i].mac));
                }
            }
        },
        None => {
            assert(new_rows[new_rows.len() - 1] == new_rows.last());
            assert forall|i: int| 0 <= i < old_rows.len() implies new_rows[i]
                == #[trigger] old_rows[i] by {
                assert(new_rows.drop_last()[i] == old_rows[i]);
            }
        },
    }
}

/// How many devices were seen since a time.
pub open spec fn seen_since(v: Seq<Device>, since: i64) -> nat
    decreases v.len(),
{
    if v.len() == 0 {
        0
    } else if v.last().last_seen >= since {
        seen_since(v.drop_last(), since) + 1
    } else {
        seen_since(v.drop_last(), since)
    }
}

impl Store {
    fn find_device(&self, mac: &str) -> (r: Option<usize>)
        ensures
            match r {
                Some(i) => device_at(self.devices@, mac@) == Some(i as int) && i
                    < self.devices@.len(),
                None => device_at(self.devices@, mac@) is None,
            },
    {
        let mut i: usize = self.devices.len();
        assert(self.devices@.take(i as int) == self.devices@);
        while i > 0
            invariant
                i <= self.devices.len(),
                device_at(self.devices@, mac@) == device_at(self.devices@.take(i as int), mac@),
            decreases i,
        {
            assert(self.devices@.take(i as int).drop_last() == self.devices@.take(i - 1));
            if let Some(m) = &self.devices[i - 1].mac {
                if text::same_str(m.as_str(), mac) {
                    return Some(i - 1);
                }
            }
            i -= 1;
        }
        None
    }

    /// Stores or refreshes the device with this MAC, seen at `now`.
    pub fn upsert_device(&mut self, mac: &str, ip: &str, now: i64) -> (r: Result<(), StoreError>)
        requires
            old(self).wf(),
        ensures
            final(self).wf(),
            match r {
                Ok(_) => {
                    &&& device_seen(old(self).devices@, final(self).devices@, mac@, ip@, now)
                    &&& *final(self) == (Store { devices: final(self).devices, ..*old(self) })
                },
                Err(e) => {
                    &&& e == StoreError::Full
                    &&& device_at(old(self).devices@, mac@) is None
                    &&& store::next_id(store::device_ids(old(self).devices@)) is None
                    &&& *final(self) == *old(self)
                },
            },
    {
        let ghost before = self.devices@;
        proof {
            lemma_device_at(before, mac@);
        }
        match self.find_device(mac) {
            Some(i) => {
                self.devices[i].ip = Some(ip.to_string());
                self.devices[i].last_seen = now;
                self.devices[i].is_active = true;
                proof {
                    let after = self.devices@;
                    assert(after == before.update(i as int, after[i as int]));
                    assert(store::device_ids(after) == store::device_ids(before));
                    assert forall|a: int, b: int|
                        0 <= a < b < after.len() && (#[trigger] after[a]).mac is Some implies text::opt_text(
                        after[a].mac,
                    ) != text::opt_text((#[trigger] after[b]).mac) by {
                        assert(after[a].mac == before[a].mac && after[b].mac == before[b].mac);
                        assert(text::opt_text(before[a].mac) != text::opt_text(before[b].mac));
                    }
                }
            },
            None => {
                let n: usize = self.devices.len();
                let last: Option<i64> = if n == 0 { None } else { Some(self.devices[n - 1].id) };
                let id = match store::id_after(last) {
                    Some(id) => id,
                    None => {
                        return Err(StoreError::Full);
                    },
                };
                self.devices.push(
                    Device {
                        id,
                        mac: Some(mac.to_string()),
                        hostname: None,
                        ip: Some(ip.to_string()),
                        vendor: None,
                        first_seen: now,
                        last_seen: now,
                        is_active: true,
                    },
                );
                proof {
                    let after = self.devices@;
                    store::lemma_next_id(store::device_ids(before));
                    assert(store::device_ids(after) == store::device_ids(before).push(id));
                    assert(after.drop_last() == before);
                    assert forall|a: int, b: int|
                        0 <= a < b < after.len() && (#[trigger] after[a]).mac is Some implies text::opt_text(
                        after[a].mac,
                    ) != text::opt_text((#[trigger] after[b]).mac) by {
                        assert(after[a] == before[a]);
                        if b < before.len() {
                            assert(after[b] == before[b]);
                        }
                    }
                }
            },
        }
        Ok(())
    }

    /// How many devices were seen since a time.
    pub fn active_device_count(&self, since: i64) -> (r: u64)
        ensures
            r == seen_since(self.devices@, since),
    {
        let mut n: u64 = 0;
        let mut i: usize = 0;
        while i < self.devices.len()
            invariant
                i <= self.devices.len(),
                n <= i,
                n == seen_since(self.devices@.take(i as int), since),
            decreases self.devices.len() - i,
        {
            assert(self.devices@.take(i + 1).drop_last() == self.devices@.take(i as int));
            if self.devices[i].last_seen >= since {
                n += 1;
            }
            i += 1;
        }
        assert(self.devices@.take(self.devices@.len() as int) == self.devices@);
        n
    }

    /// All devices, the most recently seen first.
    pub fn list_devices(&self) -> (r: Vec<&Device>)
        ensures
            tables::lists_newest(r@, self.devices@, order::NO_LIMIT),
            r@.len() == self.devices@.len(),
    {
        let r = newest_rows(&self.devices, order::NO_LIMIT);
        proof {
            let n: usize = self.devices.len();
            tables::law_lists_are_newest_first(self.devices@, order::NO_LIMIT);
            assert(tables::all_behind(r@).len() == r@.len());
        }
        r
    }
}

// ---------------------------------------------------------------------------
// Traceroutes
// ---------------------------------------------------------------------------

pub open spec fn hop_numbers(v: Seq<TracerouteHop>) -> Seq<i128> {
    v.map_values(|h: TracerouteHop| h.hop_no as i128)
}

/// The hops by ascending number.
pub open spec fn by_number(v: Seq<TracerouteHop>) -> Seq<TracerouteHop> {
    let ord = order::ascending(hop_numbers(v), v.len());
    ord.map_values(|i: usize| v[i as int])
}

fn sort_hops(hops: &Vec<TracerouteHop>) -> (r: Vec<TracerouteHop>)
    ensures
        r@ == by_number(hops@),
        r@.len() == hops@.len(),
{
    let mut keys: Vec<i128> = Vec::new();
    let mut i: usize = 0;
    while i < hops.len()
        invariant
            i <= hops.len(),
            keys@ == hop_numbers(hops@).take(i as int),
        decreases hops.len() - i,
    {
        keys.push(hops[i].hop_no as i128);
        assert(keys@ == hop_numbers(hops@).take(i + 1));
        i += 1;
    }
    assert(keys@ == hop_numbers(hops@));
    let ord = order::ascending_order(&keys);
    let mut out: Vec<TracerouteHop> = Vec::new();
    let mut k: usize = 0;
    while k < ord.len()
        invariant
            k <= ord.len(),
            ord@ == order::ascending(hop_numbers(hops@), hops@.len()),
            forall|i: int| 0 <= i < ord@.len() ==> (#[trigger] ord@[i]) < hops@.len(),
            out@ == by_number(hops@).take(k as int),
        decreases ord.len() - k,
    {
        out.push(hops[ord[k]].copy());
        assert(out@ == by_number(hops@).take(k + 1));
        k += 1;
    }
    assert(out@ == by_number(hops@));
    out
}

/// Which traceroutes went to a target.
pub open spec fn traces_to(v: Seq<TracerouteView>, target: Seq<char>) -> Seq<bool> {
    v.map_values(|t: TracerouteView| t.target@ == target)
}

/// The route hash of the newest traceroute to a target.
pub open spec fn route_to(v: Seq<TracerouteView>, target: Seq<char>) -> Option<Seq<char>> {
    match order::newest_kept(rows::stamps(v), traces_to(v, target)) {
        Some(i) => Some(v[i].route_hash@),
        None => None,
    }
}

/// One traceroute was added at the end, under a new identifier, its hops by
/// ascending number.
pub open spec fn trace_added(
    old_rows: Seq<TracerouteView>,
    new_rows: Seq<TracerouteView>,
    id: i64,
    ts: i64,
    target: Seq<char>,
    route_hash: Seq<char>,
    hops: Seq<TracerouteHop>,
) -> bool {
    &&& new_rows.len() == old_rows.len() + 1
    &&& new_rows.drop_last() == old_rows
    &&& store::next_id(store::trace_ids(old_rows)) == Some(id)
    &&& new_rows.last().id == id
    &&& new_rows.last().ts == ts
    &&& new_rows.last().target@ == target
    &&& new_rows.last().route_hash@ == route_hash
    &&& new_rows.last().hop_count == hops.len()
    &&& new_rows.last().hops@ == by_number(hops)
}

impl Store {
    /// Stores a traceroute with its hops and returns its identifier.
    pub fn save_traceroute(
        &mut self,
        ts: i64,
        target: &str,
        route_hash: &str,
        hops: &Vec<TracerouteHop>,
    ) -> (r: Result<i64, StoreError>)
        requires
            old(self).wf(),
            hops@.len() <= i64::MAX,
        ensures
            final(self).wf(),
            match r {
                Ok(id) => {
                    &&& trace_added(
                        old(self).traceroutes@,
                        final(self).traceroutes@,
                        id,
                        ts,
                        target@,
                        route_hash@,
                        hops@,
                    )
                    &&& *final(self) == (Store { traceroutes: final(self).traceroutes, ..*old(self) })
                },
                Err(e) => {
                    &&& e == StoreError::Full
                    &&& store::next_id(store::trace_ids(old(self).traceroutes@)) is None
                    &&& *final(self) == *old(self)
                },
            },
    {
        let n: usize = self.traceroutes.len();
        let last: Option<i64> = if n == 0 { None } else { Some(self.traceroutes[n - 1].id) };
        let id = match store::id_after(last) {
            Some(id) => id,
            None => {
                return Err(StoreError::Full);
            },
        };
        let ghost before = self.traceroutes@;
        let sorted = sort_hops(hops);
        self.traceroutes.push(
            TracerouteView {
                id,
                ts,
                target: target.to_string(),
                hop_count: hops.len() as i64,
                route_hash: route_hash.to_string(),
                hops: sorted,
            },
        );
        proof {
            store::lemma_next_id(store::trace_ids(before));
            assert(store::trace_ids(self.traceroutes@) == store::trace_ids(before).push(id));
            assert(self.traceroutes@.drop_last() == before);
        }
        Ok(id)
    }

    /// The route hash of the newest traceroute to a target.
    pub fn last_route_hash(&self, target: &str) -> (r: Option<String>)
        ensures
            text::opt_text(r) == route_to(self.traceroutes@, target@),
    {
        let mut keep: Vec<bool> = Vec::new();
        let mut i: usize = 0;
        while i < self.traceroutes.len()
            invariant
                i <= self.traceroutes.len(),
                keep@ == traces_to(self.traceroutes@, target@).take(i as int),
            decreases self.traceroutes.len() - i,
        {
            keep.push(text::same_str(self.traceroutes[i].target.as_str(), target));
            assert(keep@ == traces_to(self.traceroutes@, target@).take(i + 1));
            i += 1;
        }
        assert(keep@ == traces_to(self.traceroutes@, target@));
        match newest_row(&self.traceroutes, &keep) {
            Some(t) => Some(t.route_hash.clone()),
            None => None,
        }
    }

    /// The newest traceroute to any target.
    pub fn latest_traceroute(&self) -> (r: Option<&TracerouteView>)
        ensures
            tables::is_newest(r, self.traceroutes@, tables::all_true(self.traceroutes@.len())),
    {
        newest_row(&self.traceroutes, &trues(self.traceroutes.len()))
    }
}

/// Hops whose numbers increase.
pub open spec fn are_numbered(hops: Seq<TracerouteHop>) -> bool {
    forall|i: int, j: int|
        0 <= i < j < hops.len() ==> (#[trigger] hops[i]).hop_no < (#[trigger] hops[j]).hop_no
}

proof fn lemma_by_number(hops: Seq<TracerouteHop>, n: nat)
    requires
        are_numbered(hops),
        n <= hops.len() <= usize::MAX,
    ensures
        order::ascending(hop_numbers(hops), n) == Seq::new(n, |i: int| i as usize),
    decreases n,
{
    let keys = hop_numbers(hops);
    if n > 0 {
        let m = (n - 1) as nat;
        lemma_by_number(hops, m);
        let b = order::ascending(keys, m);
        if m > 0 {
            assert(b.last() == (m - 1) as usize);
            assert(hops[m - 1].hop_no < hops[m as int].hop_no);
            assert(keys[m - 1] < keys[m as int]);
        }
        assert(order::slot(keys, b, keys[m as int]) == m);
        assert(b.insert(m as int, m as usize) == Seq::new(n, |i: int| i as usize));
    }
}

/// A traceroute that was just saved, newer than all others and with increasing
/// hop numbers, is read back as it was: under its identifier, with its time,
/// target and hash, as many hops, and the same hops in the same order.
pub proof fn law_saved_traceroute_is_read_back(
    old_rows: Seq<TracerouteView>,
    new_rows: Seq<TracerouteView>,
    id: i64,
    ts: i64,
    target: Seq<char>,
    route_hash: Seq<char>,
    hops: Seq<TracerouteHop>,
)
    requires
        trace_added(old_rows, new_rows, id, ts, target, route_hash, hops),
        forall|i: int| 0 <= i < old_rows.len() ==> (#[trigger] old_rows[i]).ts <= ts,
        are_numbered(hops),
        hops.len() <= usize::MAX,
    ensures
        match tables::newest_in(new_rows) {
            Some(t) => {
                &&& t.id == id
                &&& t.ts == ts
                &&& t.target@ == target
                &&& t.route_hash@ == route_hash
                &&& t.hop_count == hops.len()
                &&& t.hops@ == hops
            },
            None => false,
        },
{
    let row = new_rows.last();
    assert(new_rows == old_rows.push(row));
    assert forall|i: int| 0 <= i < old_rows.len() implies rows::Stamped::stamp(
        #[trigger] &old_rows[i],
    ) <= rows::Stamped::stamp(&row) by {}
    tables::law_newest_row_is_read_back(old_rows, row);
    lemma_by_number(hops, hops.len());
    assert(by_number(hops) == hops);
}

/// A route that was just saved is the last known one, unless a newer trace to
/// its target was saved before.
pub proof fn law_saved_route_is_read_back(
    old_rows: Seq<TracerouteView>,
    new_rows: Seq<TracerouteView>,
    id: i64,
    ts: i64,
    target: Seq<char>,
    route_hash: Seq<char>,
    hops: Seq<TracerouteHop>,
)
    requires
        trace_added(old_rows, new_rows, id, ts, target, route_hash, hops),
        forall|i: int|
            0 <= i < old_rows.len() && (#[trigger] old_rows[i]).target@ == target ==> old_rows[i].ts
                <= ts,
    ensures
        route_to(new_rows, target) == Some(route_hash),
{
    let times = rows::stamps(new_rows);
    let keep = traces_to(new_rows, target);
    order::law_newest_kept(times, keep);
    let n = new_rows.len() - 1;
    assert(keep[n]);
    assert(times[n] == ts);
    let i = order::newest_kept(times, keep)->0;
    if i < n {
        assert(new_rows[i] == new_rows.drop_last()[i]);
        assert(old_rows[i].target@ == target);
    }
}

// ---------------------------------------------------------------------------
// Security snapshots and the public address
// ---------------------------------------------------------------------------

/// Snapshots that hold the posture, not the public address alone.
pub open spec fn with_posture(v: Seq<SecuritySnapshot>) -> Seq<bool> {
    v.map_values(|s: SecuritySnapshot| s.vpn_detected is Some)
}

pub open spec fn with_address(v: Seq<SecuritySnapshot>) -> Seq<bool> {
    v.map_values(|s: SecuritySnapshot| s.public_ip is Some)
}

/// The newest public address that was seen.
pub open spec fn public_address(v: Seq<SecuritySnapshot>) -> Option<Seq<char>> {
    match order::newest_kept(rows::stamps(v), with_address(v)) {
        Some(i) => text::opt_text(v[i].public_ip),
        None => None,
    }
}

/// One snapshot that holds the public address alone was added at the end.
pub open spec fn address_added(
    old_rows: Seq<SecuritySnapshot>,
    new_rows: Seq<SecuritySnapshot>,
    ts: i64,
    ip: Option<Seq<char>>,
) -> bool {
    let s = new_rows.last();
    &&& new_rows.len() == old_rows.len() + 1
    &&& new_rows.drop_last() == old_rows
    &&& s.ts == ts
    &&& text::opt_text(s.public_ip) == ip
    &&& s.nat_type is None && s.upnp_enabled is None && s.firewall_active is None
    &&& s.vpn_detected is None && s.doh_active is None && s.dot_active is None
    &&& s.open_ports is None
}

impl Store {
    /// Stores a posture snapshot.
    pub fn insert_security_snapshot(&mut self, s: &SecuritySnapshot)
        requires
            old(self).wf(),
        ensures
            final(self).wf(),
            final(self).security@ == old(self).security@.push(*s),
            *final(self) == (Store { security: final(self).security, ..*old(self) }),
    {
        self.security.push(s.copy());
    }

    /// The newest snapshot that holds the posture.
    pub fn latest_security(&self) -> (r: Option<&SecuritySnapshot>)
        ensures
            tables::is_newest(r, self.security@, with_posture(self.security@)),
    {
        let mut keep: Vec<bool> = Vec::new();
        let mut i: usize = 0;
        while i < self.security.len()
            invariant
                i <= self.security.len(),
                keep@ == with_posture(self.security@).take(i as int),
            decreases self.security.len() - i,
        {
            keep.push(self.security[i].vpn_detected.is_some());
            assert(keep@ == with_posture(self.security@).take(i + 1));
            i += 1;
        }
        assert(keep@ == with_posture(self.security@));
        newest_row(&self.security, &keep)
    }

    /// Stores the public address.
    pub fn insert_public_ip(&mut self, ts: i64, ip: Option<&str>)
        requires
            old(self).wf(),
        ensures
            final(self).wf(),
            address_added(old(self).security@, final(self).security@, ts, text::str_view(ip)),
            *final(self) == (Store { security: final(self).security, ..*old(self) }),
    {
        let ghost before = self.security@;
        self.security.push(
            SecuritySnapshot {
                ts,
                public_ip: own_text(ip),
                nat_type: None,
                upnp_enabled: None,
                firewall_active: None,
                vpn_detected: None,
                doh_active: None,
                dot_active: None,
                open_ports: None,
            },
        );
        assert(self.security@.drop_last() == before);
    }

    /// The newest public address that was seen.
    pub fn latest_public_ip(&self) -> (r: Option<String>)
        ensures
            text::opt_text(r) == public_address(self.security@),
    {
        let mut keep: Vec<bool> = Vec::new();
        let mut i: usize = 0;
        while i < self.security.len()
            invariant
                i <= self.security.len(),
                keep@ == with_address(self.security@).take(i as int),
            decreases self.security.len() - i,
        {
            keep.push(self.security[i].public_ip.is_some());
            assert(keep@ == with_address(self.security@).take(i + 1));
            i += 1;
        }
        assert(keep@ == with_address(self.security@));
        match newest_row(&self.security, &keep) {
            Some(s) => rows::copy_text(&s.public_ip),
            None => None,
        }
    }
}

// ---------------------------------------------------------------------------
// DNS samples and quality scores
// ---------------------------------------------------------------------------

/// One lookup was added at the end.
pub open spec fn lookup_added(
    old_rows: Seq<DnsSample>,
    new_rows: Seq<DnsSample>,
    ts: i64,
    resolver: Seq<char>,
    query_host: Seq<char>,
    lookup_ms: Option<u64>,
    success: bool,
    cached: Option<bool>,
) -> bool {
    let s = new_rows.last();
    &&& new_rows.len() == old_rows.len() + 1
    &&& new_rows.drop_last() == old_rows
    &&& s.ts == ts && s.resolver@ == resolver && s.query_host@ == query_host
    &&& s.lookup_ms == lookup_ms && s.success == success && s.cached == cached
}

impl Store {
    /// Stores a DNS lookup.
    pub fn insert_dns_sample(
        &mut self,
        ts: i64,
        resolver: &str,
        query_host: &str,
        lookup_ms: Option<u64>,
        success: bool,
        cached: Option<bool>,
    )
        requires
            old(self).wf(),
        ensures
            final(self).wf(),
            lookup_added(
                old(self).dns@,
                final(self).dns@,
                ts,
                resolver@,
                query_host@,
                lookup_ms,
                success,
                cached,
            ),
            *final(self) == (Store { dns: final(self).dns, ..*old(self) }),
    {
        let ghost before = self.dns@;
        self.dns.push(
            DnsSample {
                ts,
                resolver: resolver.to_string(),
                query_host: query_host.to_string(),
                lookup_ms,
                success,
                cached,
            },
        );
        assert(self.dns@.drop_last() == before);
    }

    /// Stores the quality scores of a cycle.
    pub fn insert_qoe(
        &mut self,
        ts: i64,
        gaming: u64,
        video_call: u64,
        streaming: u64,
        web: u64,
        voip: u64,
    )
        requires
            old(self).wf(),
        ensures
            final(self).wf(),
            final(self).qoe@ == old(self).qoe@.push(
                (QoeScore { ts, gaming, video_call, streaming, web, voip }),
            ),
            *final(self) == (Store { qoe: final(self).qoe, ..*old(self) }),
    {
        self.qoe.push(QoeScore { ts, gaming, video_call, streaming, web, voip });
    }
}

/// A device counts if it was seen since the time, and no other does.
pub proof fn law_devices_of_the_window_count(
    a: Seq<Device>,
    b: Seq<Device>,
    row: Device,
    since: i64,
)
    ensures
        seen_since(a + b, since) == seen_since(a, since) + seen_since(b, since),
        seen_since(seq![row], since) == (if row.last_seen >= since {
            1nat
        } else {
            0nat
        }),
        seen_since(Seq::<Device>::empty(), since) == 0,
    decreases b.len(),
{
    reveal_with_fuel(seen_since, 2);
    assert(seq![row].drop_last() == Seq::<Device>::empty());
    if b.len() == 0 {
        assert(a + b == a);
    } else {
        law_devices_of_the_window_count(a, b.drop_last(), row, since);
        assert((a + b).drop_last() == a + b.drop_last());
        assert(seen_since(a + b, since) == seen_since(a, since) + seen_since(b, since));
    }
}


/// A device that is seen again keeps its number, its names and when it was first
/// seen; it is active with its new address. One that is new was first seen now.
pub proof fn law_devices_keep_when_they_were_first_seen(
    old_rows: Seq<Device>,
    new_rows: Seq<Device>,
    mac: Seq<char>,
    ip: Seq<char>,
    now: i64,
    i: int,
)
    requires
        device_seen(old_rows, new_rows, mac, ip, now),
        0 <= i < new_rows.len(),
    ensures
        i < old_rows.len() ==> {
            &&& new_rows[i].id == old_rows[i].id
            &&& new_rows[i].mac == old_rows[i].mac
            &&& new_rows[i].hostname == old_rows[i].hostname
            &&& new_rows[i].vendor == old_rows[i].vendor
            &&& new_rows[i].first_seen == old_rows[i].first_seen
            &&& new_rows[i] == old_rows[i] || {
                &&& text::opt_text(old_rows[i].mac) == Some(mac)
                &&& new_rows[i].last_seen == now
                &&& new_rows[i].is_active
                &&& text::opt_text(new_rows[i].ip) == Some(ip)
            }
        },
        i >= old_rows.len() ==> {
            &&& forall|k: int|
                0 <= k < old_rows.len()
                    ==> text::opt_text((#[trigger] old_rows[k]).mac) != Some(mac)
            &&& text::opt_text(new_rows[i].mac) == Some(mac)
            &&& text::opt_text(new_rows[i].ip) == Some(ip)
            &&& new_rows[i].first_seen == now && new_rows[i].last_seen == now
            &&& new_rows[i].is_active
            &&& new_rows[i].hostname is None && new_rows[i].vendor is None
        },
{
    lemma_device_at(old_rows, mac);
    if device_at(old_rows, mac) is None {
        if i < old_rows.len() {
            assert(new_rows.drop_last()[i] == new_rows[i]);
        } else {
            assert(new_rows[i] == new_rows.last());
        }
    }
}

/// Hops are stored by their number, each of them.
pub proof fn law_hops_are_stored_by_number(
    hops: Seq<TracerouteHop>,
    i: int,
    j: int,
    h: TracerouteHop,
)
    requires
        hops.len() <= usize::MAX,
    ensures
        by_number(hops).len() == hops.len(),
        0 <= i < j < hops.len() ==> by_number(hops)[i].hop_no <= by_number(hops)[j].hop_no,
        by_number(hops).contains(h) <==> hops.contains(h),
{
    let keys = hop_numbers(hops);
    let ord = order::ascending(keys, hops.len());
    let r = by_number(hops);
    order::law_ascending_is_the_order(keys, hops.len());
    if 0 <= i < j < hops.len() {
        assert(order::before(keys, ord[i], ord[j]));
    }
    if r.contains(h) {
        let k = choose|k: int| 0 <= k < r.len() && r[k] == h;
        assert(hops[ord[k] as int] == h);
    }
    if hops.contains(h) {
        let k = choose|k: int| 0 <= k < hops.len() && hops[k] == h;
        assert(ord.contains(k as usize));
        let m = choose|m: int| 0 <= m < ord.len() && ord[m] == k as usize;
        assert(r[m] == h);
    }
}

/// The route to a target is that of its latest traceroute; traceroutes to other
/// targets do not matter.
pub proof fn law_route_is_that_of_the_latest_trace(v: Seq<TracerouteView>, target: Seq<char>)
    ensures
        match route_to(v, target) {
            Some(h) => exists|i: int|
                {
                    &&& 0 <= i < v.len()
                    &&& (#[trigger] v[i]).target@ == target
                    &&& v[i].route_hash@ == h
                    &&& forall|k: int|
                        0 <= k < v.len() && (#[trigger] v[k]).target@ == target
                            ==> v[k].ts <= v[i].ts
                },
            None => forall|k: int| 0 <= k < v.len() ==> (#[trigger] v[k]).target@ != target,
        },
{
    let keep = traces_to(v, target);
    let times = rows::stamps(v);
    order::law_newest_kept(times, keep);
    assert forall|k: int| 0 <= k < v.len() implies keep[k] == ((#[trigger] v[k]).target@ == target)
        && times[k] == v[k].ts by {}
    match order::newest_kept(times, keep) {
        Some(i) => {
            assert(v[i].target@ == target);
        },
        None => {},
    }
}

/// The public address is the latest that is known. Snapshots that know none do not
/// matter.
pub proof fn law_public_address_is_the_latest_known(v: Seq<SecuritySnapshot>)
    ensures
        match public_address(v) {
            Some(a) => exists|i: int|
                {
                    &&& 0 <= i < v.len()
                    &&& (#[trigger] v[i]).public_ip is Some
                    &&& v[i].public_ip->0@ == a
                    &&& forall|k: int|
                        0 <= k < v.len() && (#[trigger] v[k]).public_ip is Some
                            ==> v[k].ts <= v[i].ts
                },
            None => forall|k: int| 0 <= k < v.len() ==> (#[trigger] v[k]).public_ip is None,
        },
{
    let keep = with_address(v);
    let times = rows::stamps(v);
    order::law_newest_kept(times, keep);
    assert forall|k: int| 0 <= k < v.len() implies keep[k] == ((#[trigger] v[k]).public_ip is Some)
        && times[k] == v[k].ts by {}
    match order::newest_kept(times, keep) {
        Some(i) => {
            assert(v[i].public_ip is Some);
        },
        None => {},
    }
}

/// The posture is the latest snapshot that tells whether a tunnel was seen; rows that
/// only note an address do not matter.
pub proof fn law_posture_is_the_latest_full_snapshot(v: Seq<SecuritySnapshot>)
    ensures
        match tables::newest_where(v, with_posture(v)) {
            Some(s) => {
                &&& v.contains(s)
                &&& s.vpn_detected is Some
                &&& forall|k: int|
                    0 <= k < v.len() && (#[trigger] v[k]).vpn_detected is Some ==> v[k].ts <= s.ts
            },
            None => forall|k: int| 0 <= k < v.len() ==> (#[trigger] v[k]).vpn_detected is None,
        },
{
    let keep = with_posture(v);
    let times = rows::stamps(v);
    order::law_newest_kept(times, keep);
    assert forall|k: int| 0 <= k < v.len() implies keep[k] == ((#[trigger] v[k]).vpn_detected is Some)
        && times[k] == v[k].ts by {}
}

/// A noted address is read back, and noting it leaves the posture as it was.
pub proof fn law_noted_address_is_read_back(
    old_rows: Seq<SecuritySnapshot>,
    new_rows: Seq<SecuritySnapshot>,
    ts: i64,
    ip: Option<Seq<char>>,
)
    requires
        address_added(old_rows, new_rows, ts, ip),
        forall|i: int| 0 <= i < old_rows.len() ==> (#[trigger] old_rows[i]).ts <= ts,
    ensures
        ip is Some ==> public_address(new_rows) == ip,
        ip is None ==> public_address(new_rows) == public_address(old_rows),
        tables::newest_where(new_rows, with_posture(new_rows)) == tables::newest_where(
            old_rows,
            with_posture(old_rows),
        ),
        new_rows.last().ts == ts,
{
    assert(rows::stamps(new_rows).drop_last() == rows::stamps(old_rows));
    assert(with_posture(new_rows).drop_last() == with_posture(old_rows));
    assert(with_address(new_rows).drop_last() == with_address(old_rows));
    order::law_newest_kept(rows::stamps(old_rows), with_posture(old_rows));
    order::law_newest_kept(rows::stamps(old_rows), with_address(old_rows));
    assert forall|i: int| 0 <= i < old_rows.len() implies #[trigger] new_rows[i] == old_rows[i] by {
        assert(new_rows.drop_last()[i] == new_rows[i]);
    }
    assert(with_address(new_rows).last() == (new_rows.last().public_ip is Some));
    assert(rows::stamps(new_rows).last() == ts);
    match order::newest_kept(rows::stamps(old_rows), with_address(old_rows)) {
        Some(i) => {
            assert(rows::stamps(old_rows)[i] == old_rows[i].ts);
            assert(rows::stamps(new_rows)[i] == old_rows[i].ts);
        },
        None => {},
    }
}

/// A lookup is recorded behind the others as it came.
pub proof fn law_lookups_are_recorded(
    old_rows: Seq<DnsSample>,
    new_rows: Seq<DnsSample>,
    ts: i64,
    resolver: Seq<char>,
    query_host: Seq<char>,
    lookup_ms: Option<u64>,
    success: bool,
    cached: Option<bool>,
)
    requires
        lookup_added(old_rows, new_rows, ts, resolver, query_host, lookup_ms, success, cached),
    ensures
        new_rows.len() == old_rows.len() + 1,
        forall|i: int| 0 <= i < old_rows.len() ==> #[trigger] new_rows[i] == old_rows[i],
        new_rows.last().ts == ts,
        new_rows.last().resolver@ == resolver,
        new_rows.last().query_host@ == query_host,
        new_rows.last().lookup_ms == lookup_ms,
        new_rows.last().success == success,
        new_rows.last().cached == cached,
{
    assert forall|i: int| 0 <= i < old_rows.len() implies #[trigger] new_rows[i] == old_rows[i] by {
        assert(new_rows.drop_last()[i] == new_rows[i]);
    }
}

} // verus!
