//! What a monitoring cycle does with its measurements.
//!
//! The measurements themselves are taken elsewhere. The monitor says what is to
//! be probed, takes the results, stores them and detects outages: the internet
//! is down only when every enabled internet target is unreachable in a cycle.

use vstd::prelude::*;

use crate::diagnostics;
use crate::order;
use crate::probe;
use crate::probe::{ProbeConfig, ProbeOutcome};
use crate::qoe::Qoe;
use crate::rows;
use crate::rows::{ConnectivitySample, Event, NewConnectivitySample, Outage, QoeScore, Target};
use crate::stats;
use crate::store;
use crate::store::Store;
use crate::tables;
use crate::text;

verus! {

// ---------------------------------------------------------------------------
// Configuration
// ---------------------------------------------------------------------------

/// How the monitor samples. Times are in milliseconds.
pub struct MonitorConfig {
    /// Time between probe cycles.
    pub interval_ms: u64,
    /// TCP port to connect to on each target.
    pub port: u16,
    /// Probe settings of each target.
    pub probe: ProbeConfig,
    pub maintenance_interval_ms: u64,
    pub dns_interval_ms: u64,
    pub dns_timeout_ms: u64,
    pub public_ip_interval_ms: u64,
    pub public_ip_timeout_ms: u64,
    pub security_interval_ms: u64,
    pub security_timeout_ms: u64,
    pub wifi_interval_ms: u64,
    pub devices_interval_ms: u64,
    pub traceroute_interval_ms: u64,
    pub traceroute_target: String,
    pub traceroute_max_hops: u8,
    pub traceroute_timeout_ms: u64,
}

impl Default for MonitorConfig {
    fn default() -> (r: MonitorConfig)
        ensures
            r.interval_ms == 15_000,
            r.port == 443,
            r.probe == (ProbeConfig { count: 5, timeout_ms: 2000, gap_ms: 200, ip_version: None }),
            r.maintenance_interval_ms == 3_600_000,
            r.dns_interval_ms == 60_000 && r.dns_timeout_ms == 3_000,
            r.public_ip_interval_ms == 600_000 && r.public_ip_timeout_ms == 5_000,
            r.security_interval_ms == 300_000 && r.security_timeout_ms == 4_000,
            r.wifi_interval_ms == 30_000 && r.devices_interval_ms == 60_000,
            r.traceroute_interval_ms == 600_000 && r.traceroute_target@ == "1.1.1.1"@,
            r.traceroute_max_hops == 30 && r.traceroute_timeout_ms == 40_000,
            samples_by_default(r),
    {
        MonitorConfig {
            interval_ms: 15_000,
            port: 443,
            probe: ProbeConfig::default(),
            maintenance_interval_ms: 3_600_000,
            dns_interval_ms: 60_000,
            dns_timeout_ms: 3_000,
            public_ip_interval_ms: 600_000,
            public_ip_timeout_ms: 5_000,
            security_interval_ms: 300_000,
            security_timeout_ms: 4_000,
            wifi_interval_ms: 30_000,
            devices_interval_ms: 60_000,
            traceroute_interval_ms: 600_000,
            traceroute_target: "1.1.1.1".to_string(),
            traceroute_max_hops: 30,
            traceroute_timeout_ms: 40_000,
        }
    }
}

/// The state after a cycle. Latency, loss and jitter count reachable targets
/// only: a target that is down is an unavailable path, not loss on the
/// connection.
#[derive(Clone, Copy, Debug, PartialEq, Eq)]
pub struct StatusUpdate {
    pub ts: i64,
    pub online: bool,
    pub targets_up: u64,
    pub targets_total: u64,
    /// Lowest mean latency of the targets that responded.
    pub best_latency_ms: Option<u64>,
    pub avg_loss_pct: Option<u64>,
    pub avg_jitter_ms: Option<u64>,
    pub outage_ongoing: bool,
    /// `None` while offline.
    pub qoe: Option<Qoe>,
}

pub struct Monitor {
    pub store: Store,
    pub config: MonitorConfig,
}

// ---------------------------------------------------------------------------
// Room
// ---------------------------------------------------------------------------

/// The identifiers leave room for `n` more rows.
pub open spec fn ids_left(ids: Seq<i64>, n: nat) -> bool {
    ids.len() == 0 || ids.last() + n <= i64::MAX
}

fn enough(last: Option<i64>, n: u64) -> (r: bool)
    ensures
        r == (match last {
            Some(x) => x + n <= i64::MAX,
            None => true,
        }),
{
    match last {
        Some(x) => x as i128 + n as i128 <= i64::MAX as i128,
        None => true,
    }
}

impl Store {
    /// Every table with identifiers has room for `n` more rows.
    pub open spec fn has_room(self, n: nat) -> bool {
        &&& n < i64::MAX
        &&& ids_left(store::sample_ids(self.connectivity@), n)
        &&& ids_left(store::event_ids(self.events@), n)
        &&& ids_left(store::outage_ids(self.outages@), n)
        &&& ids_left(store::device_ids(self.devices@), n)
        &&& ids_left(store::trace_ids(self.traceroutes@), n)
    }

    /// Whether every table with identifiers has room for `n` more rows.
    pub fn room_for(&self, n: u64) -> (r: bool)
        ensures
            r == self.has_room(n as nat),
    {
        let a: Option<i64> = if self.connectivity.len() == 0 {
            None
        } else {
            Some(self.connectivity[self.connectivity.len() - 1].id)
        };
        let b: Option<i64> = if self.events.len() == 0 {
            None
        } else {
            Some(self.events[self.events.len() - 1].id)
        };
        let c: Option<i64> = if self.outages.len() == 0 {
            None
        } else {
            Some(self.outages[self.outages.len() - 1].id)
        };
        let d: Option<i64> = if self.devices.len() == 0 {
            None
        } else {
            Some(self.devices[self.devices.len() - 1].id)
        };
        let e: Option<i64> = if self.traceroutes.len() == 0 {
            None
        } else {
            Some(self.traceroutes[self.traceroutes.len() - 1].id)
        };
        n < 0x7fff_ffff_ffff_ffff && enough(a, n) && enough(b, n) && enough(c, n) && enough(d, n)
            && enough(e, n)
    }
}

// ---------------------------------------------------------------------------
// What a cycle probes
// ---------------------------------------------------------------------------

/// One target of a cycle.
pub struct ProbeTask {
    pub target_id: i64,
    pub host: String,
    pub ip_version: u8,
}

/// An enabled internet target.
pub open spec fn is_probed(t: Target) -> bool {
    t.enabled && t.kind@ == "internet"@
}

/// The targets that a cycle probes, by identifier.
pub open spec fn probed(v: Seq<Target>) -> Seq<Target>
    decreases v.len(),
{
    if v.len() == 0 {
        v
    } else if is_probed(v.last()) {
        probed(v.drop_last()).push(v.last())
    } else {
        probed(v.drop_last())
    }
}

/// The IP version that a target is probed with: its own, or 4. One outside a
/// byte is cut to its low byte.
pub open spec fn probe_version(t: Target) -> u8 {
    match t.ip_version {
        Some(v) => (v as int % 256) as u8,
        None => 4,
    }
}

fn low_byte(v: i64) -> (r: u8)
    ensures
        r == (v as int % 256) as u8,
{
    if v >= 0 {
        (v % 256) as u8
    } else {
        let m: i64 = (-(v + 1)) % 256;
        assert(v as int % 256 == 255 - m) by {
            let w = -(v + 1) as int;
            assert(v == -w - 1);
            assert((-w - 1) % 256 == 255 - w % 256);
        }
        (255 - m) as u8
    }
}

pub open spec fn is_task(p: ProbeTask, t: Target) -> bool {
    p.target_id == t.id && p.host@ == t.host@ && p.ip_version == probe_version(t)
}

impl Monitor {
    pub fn new(store: Store, config: MonitorConfig) -> (r: Monitor)
        ensures
            r.store == store,
            r.config == config,
    {
        Monitor { store, config }
    }

    /// The targets to probe in a cycle.
    pub fn probe_targets(&self) -> (r: Vec<ProbeTask>)
        ensures
            r@.len() == probed(self.store.targets@).len(),
            forall|i: int|
                0 <= i < r@.len() ==> is_task(#[trigger] r@[i], probed(self.store.targets@)[i]),
    {
        let mut out: Vec<ProbeTask> = Vec::new();
        let ghost v = self.store.targets@;
        let mut i: usize = 0;
        while i < self.store.targets.len()
            invariant
                i <= self.store.targets.len(),
                v == self.store.targets@,
                out@.len() == probed(v.take(i as int)).len(),
                forall|k: int|
                    0 <= k < out@.len() ==> is_task(#[trigger] out@[k], probed(v.take(i as int))[k]),
            decreases self.store.targets.len() - i,
        {
            assert(v.take(i + 1).drop_last() == v.take(i as int));
            let t = &self.store.targets[i];
            if t.enabled && text::same_str(t.kind.as_str(), "internet") {
                let ip_version: u8 = match t.ip_version {
                    Some(n) => low_byte(n),
                    None => 4,
                };
                out.push(ProbeTask { target_id: t.id, host: t.host.clone(), ip_version });
            }
            i += 1;
        }
        assert(v.take(v.len() as int) == v);
        out
    }
}

proof fn lemma_probed_exist(v: Seq<Target>)
    ensures
        forall|i: int|
            0 <= i < probed(v).len() ==> store::target_ids(v).contains((#[trigger] probed(v)[i]).id)
                && is_probed(probed(v)[i]),
        probed(v).len() <= v.len(),
    decreases v.len(),
{
    if v.len() > 0 {
        let d = v.drop_last();
        lemma_probed_exist(d);
        assert forall|i: int| 0 <= i < probed(v).len() implies store::target_ids(v).contains(
            (#[trigger] probed(v)[i]).id,
        ) && is_probed(probed(v)[i]) by {
            if i < probed(d).len() {
                assert(probed(v)[i] == probed(d)[i]);
                let k = choose|k: int|
                    0 <= k < d.len() && store::target_ids(d)[k] == probed(d)[i].id;
                assert(store::target_ids(v)[k] == probed(v)[i].id);
            } else {
                assert(store::target_ids(v)[v.len() - 1] == probed(v)[i].id);
            }
        }
    }
}

// ---------------------------------------------------------------------------
// The figures of a cycle
// ---------------------------------------------------------------------------

pub open spec fn up_count(v: Seq<ProbeOutcome>) -> nat
    decreases v.len(),
{
    if v.len() == 0 {
        0
    } else if v.last().up {
        up_count(v.drop_last()) + 1
    } else {
        up_count(v.drop_last())
    }
}

/// The loss of each reachable target.
pub open spec fn up_losses(v: Seq<ProbeOutcome>) -> Seq<u64>
    decreases v.len(),
{
    if v.len() == 0 {
        Seq::empty()
    } else if v.last().up {
        up_losses(v.drop_last()).push(v.last().loss_pct)
    } else {
        up_losses(v.drop_last())
    }
}

/// The mean latency of each reachable target that has one.
pub open spec fn up_latencies(v: Seq<ProbeOutcome>) -> Seq<u64>
    decreases v.len(),
{
    if v.len() == 0 {
        Seq::empty()
    } else if v.last().up && v.last().rtt_avg is Some {
        up_latencies(v.drop_last()).push(v.last().rtt_avg->0)
    } else {
        up_latencies(v.drop_last())
    }
}

/// The jitter of each reachable target that has one.
pub open spec fn up_jitters(v: Seq<ProbeOutcome>) -> Seq<u64>
    decreases v.len(),
{
    if v.len() == 0 {
        Seq::empty()
    } else if v.last().up && v.last().rtt_jitter is Some {
        up_jitters(v.drop_last()).push(v.last().rtt_jitter->0)
    } else {
        up_jitters(v.drop_last())
    }
}

/// Some target responded.
pub open spec fn is_online(v: Seq<ProbeOutcome>) -> bool {
    up_count(v) > 0
}

/// There are targets and none responded.
pub open spec fn is_all_down(v: Seq<ProbeOutcome>) -> bool {
    v.len() > 0 && up_count(v) == 0
}

/// The scores of a cycle from its best latency, mean jitter and mean loss; none
/// while offline.
pub open spec fn cycle_qoe(v: Seq<ProbeOutcome>) -> Option<Qoe> {
    if is_online(v) {
        Some(
            Qoe::of(
                stats::minimum(up_latencies(v)).unwrap_or(0) as int,
                stats::mean(up_jitters(v)).unwrap_or(0) as int,
                stats::mean(up_losses(v)).unwrap_or(0) as int,
            ),
        )
    } else {
        None
    }
}

/// The state after a cycle with these outcomes.
pub open spec fn status(now: i64, v: Seq<ProbeOutcome>) -> StatusUpdate {
    StatusUpdate {
        ts: now,
        online: is_online(v),
        targets_up: up_count(v) as u64,
        targets_total: v.len() as u64,
        best_latency_ms: stats::minimum(up_latencies(v)),
        avg_loss_pct: stats::mean(up_losses(v)),
        avg_jitter_ms: stats::mean(up_jitters(v)),
        outage_ongoing: is_all_down(v),
        qoe: cycle_qoe(v),
    }
}

/// The figures of a cycle.
pub fn cycle_status(now: i64, outcomes: &Vec<ProbeOutcome>) -> (r: StatusUpdate)
    ensures
        r == status(now, outcomes@),
        r.targets_up == up_count(outcomes@),
        r.targets_total == outcomes@.len(),
{
    let mut up: u64 = 0;
    let mut losses: Vec<u64> = Vec::new();
    let mut latencies: Vec<u64> = Vec::new();
    let mut jitters: Vec<u64> = Vec::new();
    let mut i: usize = 0;
    while i < outcomes.len()
        invariant
            i <= outcomes.len(),
            up <= i,
            up == up_count(outcomes@.take(i as int)),
            losses@ == up_losses(outcomes@.take(i as int)),
            latencies@ == up_latencies(outcomes@.take(i as int)),
            jitters@ == up_jitters(outcomes@.take(i as int)),
        decreases outcomes.len() - i,
    {
        assert(outcomes@.take(i + 1).drop_last() == outcomes@.take(i as int));
        let o = outcomes[i];
        if o.up {
            up += 1;
            losses.push(o.loss_pct);
            if let Some(x) = o.rtt_avg {
                latencies.push(x);
            }
            if let Some(x) = o.rtt_jitter {
                jitters.push(x);
            }
        }
        i += 1;
    }
    assert(outcomes@.take(outcomes@.len() as int) == outcomes@);
    let best = stats::minimum_of(&latencies);
    let loss = stats::mean_of(&losses);
    let jitter = stats::mean_of(&jitters);
    let online = up > 0;
    let all_down = outcomes.len() > 0 && up == 0;
    let qoe = if online {
        let a: u64 = match best {
            Some(x) => x,
            None => 0,
        };
        let b: u64 = match jitter {
            Some(x) => x,
            None => 0,
        };
        let c: u64 = match loss {
            Some(x) => x,
            None => 0,
        };
        Some(Qoe::score(a, b, c))
    } else {
        None
    };
    StatusUpdate {
        ts: now,
        online,
        targets_up: up,
        targets_total: outcomes.len() as u64,
        best_latency_ms: best,
        avg_loss_pct: loss,
        avg_jitter_ms: jitter,
        outage_ongoing: all_down,
        qoe,
    }
}

// ---------------------------------------------------------------------------
// Outages
// ---------------------------------------------------------------------------

/// A closed outage was noted: its start as a disconnect, then its end as a
/// reconnect.
pub open spec fn outage_noted(
    old_events: Seq<Event>,
    new_events: Seq<Event>,
    start: i64,
    end: i64,
    took: i64,
    severity: Seq<char>,
) -> bool {
    &&& tables::event_added(
        old_events,
        new_events.drop_last(),
        start,
        "disconnect"@,
        severity,
        None,
        None,
    )
    &&& tables::event_added(
        new_events.drop_last(),
        new_events,
        end,
        "reconnect"@,
        "info"@,
        Some(took),
        None,
    )
}

/// How grave a disconnect is: critical, unless the device was asleep or off.
pub open spec fn gravity(samples: Seq<ConnectivitySample>, start: i64, end: i64) -> Seq<char> {
    if diagnostics::is_real_outage(
        end - start,
        diagnostics::samples_between(samples, start, end) as int,
    ) {
        "critical"@
    } else {
        "info"@
    }
}

/// What a cycle does to the outages and the events, once its samples are stored.
/// When everything drops an outage opens. When anything recovers the open one
/// closes and is put down to the internet or to the device; only then is that
/// known, and so both its events are stored then. Otherwise nothing changes.
pub open spec fn outage_step(
    old_outages: Seq<Outage>,
    new_outages: Seq<Outage>,
    old_events: Seq<Event>,
    new_events: Seq<Event>,
    samples: Seq<ConnectivitySample>,
    now: i64,
    online: bool,
    all_down: bool,
) -> bool {
    match tables::open_outage_at(old_outages) {
        None if all_down => {
            &&& tables::outage_opened(
                old_outages,
                new_outages,
                new_outages.last().id,
                now,
                Some(rows::OUTAGE_CAUSE_REAL@),
            )
            &&& new_events == old_events
        },
        Some(i) if online => {
            let start = old_outages[i].ts_start;
            let took = (now - start) as i64;
            &&& diagnostics::closed_as(
                old_outages,
                new_outages,
                old_outages[i].id,
                now,
                Some(took),
                diagnostics::cause_of(samples, start, now),
            )
            &&& outage_noted(
                old_events,
                new_events,
                start,
                now,
                took,
                gravity(samples, start, now),
            )
        },
        _ => new_outages == old_outages && new_events == old_events,
    }
}

/// How long any open outage has lasted fits in an `i64`.
pub open spec fn spans_fit(v: Seq<Outage>, now: i64) -> bool {
    forall|i: int|
        0 <= i < v.len() && (#[trigger] v[i]).ts_end is None ==> i64::MIN <= now - v[i].ts_start
            <= i64::MAX
}

/// How many outages are open.
pub open spec fn open_count(v: Seq<Outage>) -> nat
    decreases v.len(),
{
    if v.len() == 0 {
        0
    } else if v.last().ts_end is None {
        open_count(v.drop_last()) + 1
    } else {
        open_count(v.drop_last())
    }
}

proof fn lemma_open_count_zero(v: Seq<Outage>)
    ensures
        open_count(v) == 0 <==> forall|i: int| 0 <= i < v.len() ==> (#[trigger] v[i]).ts_end is Some,
    decreases v.len(),
{
    if v.len() > 0 {
        let d = v.drop_last();
        lemma_open_count_zero(d);
        assert forall|i: int| 0 <= i < d.len() implies d[i] == #[trigger] v[i] by {}
        if open_count(v) == 0 {
            assert forall|i: int| 0 <= i < v.len() implies (#[trigger] v[i]).ts_end is Some by {
                if i < d.len() {
                    assert(d[i] == v[i]);
                }
            }
        } else if forall|i: int| 0 <= i < v.len() ==> (#[trigger] v[i]).ts_end is Some {
            assert(v[v.len() - 1].ts_end is Some);
            assert forall|i: int| 0 <= i < d.len() implies (#[trigger] d[i]).ts_end is Some by {
                assert(v[i].ts_end is Some);
            }
        }
    }
}

proof fn lemma_closing_one(v: Seq<Outage>, w: Seq<Outage>, i: int)
    requires
        0 <= i < v.len(),
        v[i].ts_end is None,
        w.len() == v.len(),
        forall|k: int|
            0 <= k < v.len() ==> ((#[trigger] w[k]).ts_end is None <==> k != i
                && v[k].ts_end is None),
    ensures
        open_count(w) == open_count(v) - 1,
    decreases v.len(),
{
    let (d, e) = (v.drop_last(), w.drop_last());
    assert forall|k: int| 0 <= k < d.len() implies ((#[trigger] e[k]).ts_end is None <==> k != i
        && d[k].ts_end is None) by {
        assert(e[k] == w[k] && d[k] == v[k]);
    }
    assert(w[w.len() - 1] == w.last());
    if i == v.len() - 1 {
        lemma_as_open(d, e);
    } else {
        assert(d[i] == v[i]);
        lemma_closing_one(d, e, i);
    }
}

proof fn lemma_as_open(v: Seq<Outage>, w: Seq<Outage>)
    requires
        w.len() == v.len(),
        forall|k: int|
            0 <= k < v.len() ==> ((#[trigger] w[k]).ts_end is None <==> v[k].ts_end is None),
    ensures
        open_count(w) == open_count(v),
    decreases v.len(),
{
    if v.len() > 0 {
        let (d, e) = (v.drop_last(), w.drop_last());
        assert forall|k: int| 0 <= k < d.len() implies ((#[trigger] e[k]).ts_end is None
            <==> d[k].ts_end is None) by {
            assert(e[k] == w[k] && d[k] == v[k]);
        }
        lemma_as_open(d, e);
        assert(w[w.len() - 1] == w.last());
    }
}

/// There is never more than one open outage. One opens, at the time of the
/// cycle, exactly when all targets are down and none is open. An open one closes
/// exactly when anything responds: with the time of the cycle as its end and the
/// time since its start as its duration and its reconnect time. Every other
/// outage stays as it was.
pub proof fn law_outages_open_and_close(
    old_outages: Seq<Outage>,
    new_outages: Seq<Outage>,
    old_events: Seq<Event>,
    new_events: Seq<Event>,
    samples: Seq<ConnectivitySample>,
    now: i64,
    online: bool,
    all_down: bool,
)
    requires
        store::increasing(store::outage_ids(old_outages)),
        open_count(old_outages) <= 1,
        spans_fit(old_outages, now),
        !(online && all_down),
        outage_step(
            old_outages,
            new_outages,
            old_events,
            new_events,
            samples,
            now,
            online,
            all_down,
        ),
    ensures
        open_count(new_outages) <= 1,
        all_down ==> open_count(new_outages) == 1,
        online ==> open_count(new_outages) == 0,
        match tables::open_outage_at(old_outages) {
            None if all_down => {
                &&& new_outages.drop_last() == old_outages
                &&& new_outages.len() == old_outages.len() + 1
                &&& new_outages.last().ts_start == now
                &&& new_outages.last().ts_end is None
            },
            Some(i) if online => {
                &&& new_outages.len() == old_outages.len()
                &&& new_outages[i].ts_start == old_outages[i].ts_start
                &&& new_outages[i].ts_end == Some(now)
                &&& new_outages[i].duration_ms is Some
                &&& new_outages[i].duration_ms->0 == now - old_outages[i].ts_start
                &&& new_outages[i].reconnect_ms == new_outages[i].duration_ms
                &&& forall|k: int|
                    0 <= k < old_outages.len() && k != i ==> #[trigger] new_outages[k]
                        == old_outages[k]
            },
            _ => new_outages == old_outages && new_events == old_events,
        },
{
    let times = rows::stamps(old_outages);
    let keep = tables::open_ones(old_outages);
    crate::order::law_newest_kept(times, keep);
    lemma_open_count_zero(old_outages);
    match tables::open_outage_at(old_outages) {
        Some(i) => {
            assert(keep[i]);
            assert(old_outages[i].ts_end is None);
            if online {
                let ids = store::outage_ids(old_outages);
                assert forall|k: int| 0 <= k < old_outages.len() && k != i implies #[trigger] new_outages[k]
                    == old_outages[k] by {
                    if k < i {
                        assert(ids[k] < ids[i]);
                    } else {
                        assert(ids[i] < ids[k]);
                    }
                }
                assert(new_outages[i].ts_end == Some(now));
                lemma_closing_one(old_outages, new_outages, i);
            }
        },
        None => {
            assert forall|i: int| 0 <= i < old_outages.len() implies (#[trigger] old_outages[i]).ts_end is Some by {
                assert(!keep[i]);
            }
        },
    }
}

/// When an outage closes, a disconnect is noted at the time at which it began:
/// as critical exactly if the outage is put down to the internet, and for
/// information exactly if it is put down to the device.
pub proof fn law_disconnects_are_classified(
    old_outages: Seq<Outage>,
    new_outages: Seq<Outage>,
    old_events: Seq<Event>,
    new_events: Seq<Event>,
    samples: Seq<ConnectivitySample>,
    now: i64,
)
    requires
        tables::open_outage_at(old_outages) is Some,
        outage_step(
            old_outages,
            new_outages,
            old_events,
            new_events,
            samples,
            now,
            true,
            false,
        ),
    ensures
        ({
            let i = tables::open_outage_at(old_outages)->0;
            let noted = new_events[old_events.len() as int];
            &&& new_events.len() == old_events.len() + 2
            &&& noted.ts == old_outages[i].ts_start
            &&& noted.severity@ == "critical"@ <==> rows::is_put_down_to(
                new_outages[i],
                rows::OUTAGE_CAUSE_REAL@,
            )
            &&& noted.severity@ == "info"@ <==> rows::is_put_down_to(
                new_outages[i],
                rows::OUTAGE_CAUSE_GAP@,
            )
        }),
{
    reveal_strlit("critical");
    reveal_strlit("info");
    reveal_strlit("all internet targets unreachable");
    reveal_strlit("device was asleep/off");
    crate::order::law_newest_kept(
        rows::stamps(old_outages),
        tables::open_ones(old_outages),
    );
    let i = tables::open_outage_at(old_outages)->0;
    let noted = new_events[old_events.len() as int];
    assert(noted == new_events.drop_last().last());
    assert(new_outages[i].id == old_outages[i].id);
    assert("critical"@.len() != "info"@.len());
    assert(rows::OUTAGE_CAUSE_REAL@.len() != rows::OUTAGE_CAUSE_GAP@.len());
}

/// The internet counts as down only if every probed target failed: one response
/// is enough for a cycle to be online and without an outage.
pub proof fn law_down_only_if_every_target_fails(v: Seq<ProbeOutcome>, i: int)
    requires
        0 <= i < v.len(),
        v[i].up,
    ensures
        is_online(v),
        !is_all_down(v),
    decreases v.len(),
{
    if i < v.len() - 1 {
        assert(v.drop_last()[i] == v[i]);
        law_down_only_if_every_target_fails(v.drop_last(), i);
    }
}

proof fn lemma_dead_target(v: Seq<ProbeOutcome>, i: int, dead: ProbeOutcome)
    requires
        !dead.up,
        0 <= i <= v.len(),
    ensures
        up_count(v.insert(i, dead)) == up_count(v),
        up_losses(v.insert(i, dead)) == up_losses(v),
        up_latencies(v.insert(i, dead)) == up_latencies(v),
        up_jitters(v.insert(i, dead)) == up_jitters(v),
    decreases v.len(),
{
    let w = v.insert(i, dead);
    if i == v.len() {
        assert(w.drop_last() == v);
    } else {
        lemma_dead_target(v.drop_last(), i, dead);
        assert(w.drop_last() == v.drop_last().insert(i, dead));
        assert(w.last() == v.last());
    }
}

/// A target that does not respond, wherever it stands among the others, changes
/// nothing of a cycle in which any other responds but the number of targets:
/// neither the reachable targets, latency, loss, jitter nor the scores.
pub proof fn law_dead_targets_do_not_count(
    now: i64,
    v: Seq<ProbeOutcome>,
    i: int,
    dead: ProbeOutcome,
)
    requires
        !dead.up,
        0 <= i <= v.len(),
        v.len() < u64::MAX,
        is_online(v),
    ensures
        status(now, v.insert(i, dead)) == (StatusUpdate {
            targets_total: (status(now, v).targets_total + 1) as u64,
            ..status(now, v)
        }),
{
    lemma_dead_target(v, i, dead);
}

impl Monitor {
    /// Opens an outage when everything drops, closes it when anything recovers.
    /// Whether it was a real one is known once it closes, so both its events are
    /// stored then.
    pub fn update_outage(&mut self, now: i64, online: bool, all_down: bool)
        requires
            old(self).store.wf(),
            ids_left(store::outage_ids(old(self).store.outages@), 1),
            online ==> ids_left(store::event_ids(old(self).store.events@), 2),
            spans_fit(old(self).store.outages@, now),
        ensures
            final(self).store.wf(),
            outage_step(
                old(self).store.outages@,
                final(self).store.outages@,
                old(self).store.events@,
                final(self).store.events@,
                old(self).store.connectivity@,
                now,
                online,
                all_down,
            ),
            final(self).config == old(self).config,
            final(self).store == (Store {
                outages: final(self).store.outages,
                events: final(self).store.events,
                ..old(self).store
            }),
    {
        let ghost all = self.store.outages@;
        proof {
            let times = rows::stamps(all);
            let keep = tables::open_ones(all);
            crate::order::law_newest_kept(times, keep);
            if tables::open_outage_at(all) is Some {
                assert(keep[tables::open_outage_at(all)->0]);
            }
        }
        let open: Option<(i64, i64)> = match self.store.current_open_outage() {
            Some(o) => Some((o.id, o.ts_start)),
            None => None,
        };
        match open {
            None => {
                if all_down {
                    let _ = self.store.open_outage(now, Some(rows::OUTAGE_CAUSE_REAL));
                }
            },
            Some((id, start)) => {
                if online {
                    let ghost i = tables::open_outage_at(all)->0;
                    assert(all[i].ts_end is None);
                    let took: i64 = now - start;
                    proof {
                        assert forall|k: int|
                            0 <= k < all.len() && (#[trigger] all[k]).id == id implies i64::MIN
                            <= now - all[k].ts_start <= i64::MAX by {
                            let ids = store::outage_ids(all);
                            if k < i {
                                assert(ids[k] < ids[i]);
                            } else if i < k {
                                assert(ids[i] < ids[k]);
                            }
                        }
                    }
                    let is_real = self.store.close_outage_classified(id, start, now, Some(took));
                    let severity = if is_real {
                        "critical"
                    } else {
                        "info"
                    };
                    let _ = self.store.insert_event(start, "disconnect", severity, None, None);
                    let ghost mid = self.store.events@;
                    let _ = self.store.insert_event(now, "reconnect", "info", Some(took), None);
                    proof {
                        assert(self.store.events@.drop_last() == mid);
                    }
                }
            },
        }
    }
}

// ---------------------------------------------------------------------------
// A cycle
// ---------------------------------------------------------------------------

/// The sample of a target's outcome.
pub open spec fn sample_of(t: Target, o: ProbeOutcome, now: i64) -> NewConnectivitySample {
    NewConnectivitySample {
        ts: now,
        target_id: t.id,
        ip_version: probe_version(t) as i64,
        sent: o.sent as i64,
        received: o.received as i64,
        loss_pct: o.loss_pct,
        rtt_min: o.rtt_min,
        rtt_avg: o.rtt_avg,
        rtt_max: o.rtt_max,
        rtt_jitter: o.rtt_jitter,
        up: o.up,
    }
}

/// The samples after `n` outcomes were stored, each under the next identifier.
pub open spec fn with_samples(
    v: Seq<ConnectivitySample>,
    targets: Seq<Target>,
    outcomes: Seq<ProbeOutcome>,
    now: i64,
    n: nat,
) -> Seq<ConnectivitySample>
    decreases n,
{
    if n == 0 {
        v
    } else {
        let before = with_samples(v, targets, outcomes, now, (n - 1) as nat);
        before.push(
            tables::stored(
                store::next_id(store::sample_ids(before))->0,
                sample_of(targets[n - 1], outcomes[n - 1], now),
            ),
        )
    }
}

/// The scores after a cycle.
pub open spec fn with_scores(v: Seq<QoeScore>, now: i64, q: Option<Qoe>) -> Seq<QoeScore> {
    match q {
        Some(s) => v.push(
            QoeScore {
                ts: now,
                gaming: s.gaming,
                video_call: s.video_call,
                streaming: s.streaming,
                web: s.web,
                voip: s.voip,
            },
        ),
        None => v,
    }
}

impl Monitor {
    fn store_samples(&mut self, now: i64, tasks: &Vec<ProbeTask>, outcomes: &Vec<ProbeOutcome>)
        requires
            old(self).store.wf(),
            tasks@.len() == probed(old(self).store.targets@).len(),
            outcomes@.len() == tasks@.len(),
            forall|i: int|
                0 <= i < tasks@.len() ==> is_task(
                    #[trigger] tasks@[i],
                    probed(old(self).store.targets@)[i],
                ),
            ids_left(store::sample_ids(old(self).store.connectivity@), outcomes@.len()),
            outcomes@.len() < i64::MAX,
        ensures
            final(self).store.wf(),
            final(self).store.connectivity@ == with_samples(
                old(self).store.connectivity@,
                probed(old(self).store.targets@),
                outcomes@,
                now,
                outcomes@.len(),
            ),
            final(self).config == old(self).config,
            final(self).store == (Store {
                connectivity: final(self).store.connectivity,
                ..old(self).store
            }),
    {
        let ghost v = self.store.connectivity@;
        let ghost targets = probed(self.store.targets@);
        let ghost first = store::sample_ids(v);
        proof {
            lemma_probed_exist(self.store.targets@);
        }
        let mut i: usize = 0;
        while i < tasks.len()
            invariant
                i <= tasks.len(),
                self.store.wf(),
                tasks@.len() == targets.len(),
                outcomes@.len() == tasks@.len(),
                outcomes@.len() < i64::MAX,
                v == old(self).store.connectivity@,
                targets == probed(old(self).store.targets@),
                self.config == old(self).config,
                self.store == (Store { connectivity: self.store.connectivity, ..old(self).store }),
                forall|k: int| 0 <= k < tasks@.len() ==> is_task(#[trigger] tasks@[k], targets[k]),
                forall|k: int|
                    0 <= k < targets.len() ==> store::target_ids(self.store.targets@).contains(
                        (#[trigger] targets[k]).id,
                    ),
                self.store.connectivity@ == with_samples(v, targets, outcomes@, now, i as nat),
                self.store.connectivity@.len() == v.len() + i,
                ids_left(store::sample_ids(v), outcomes@.len()),
                i > 0 ==> self.store.connectivity@.last().id == (if v.len() == 0 {
                    i as int
                } else {
                    v.last().id + i
                }),
                i == 0 ==> self.store.connectivity@ == v,
            decreases tasks.len() - i,
        {
            let t = &tasks[i];
            let o = outcomes[i];
            assert(is_task(*t, targets[i as int]));
            let ghost before = self.store.connectivity@;
            assert(store::target_ids(self.store.targets@).contains(targets[i as int].id));
            assert(store::next_id(store::sample_ids(before)) is Some) by {
                if before.len() > 0 {
                    assert(store::sample_ids(before).last() == before.last().id);
                    if i == 0 {
                        assert(store::sample_ids(v).last() == v.last().id);
                    } else if v.len() > 0 {
                        assert(store::sample_ids(v).last() == v.last().id);
                    }
                }
            }
            let _ = self.store.insert_connectivity_sample(
                NewConnectivitySample {
                    ts: now,
                    target_id: t.target_id,
                    ip_version: t.ip_version as i64,
                    sent: o.sent as i64,
                    received: o.received as i64,
                    loss_pct: o.loss_pct,
                    rtt_min: o.rtt_min,
                    rtt_avg: o.rtt_avg,
                    rtt_max: o.rtt_max,
                    rtt_jitter: o.rtt_jitter,
                    up: o.up,
                },
            );
            proof {
                if before.len() > 0 {
                    assert(store::sample_ids(before).last() == before.last().id);
                }
                assert(self.store.connectivity@.last().id == store::next_id(
                    store::sample_ids(before),
                )->0);
            }
            i += 1;
        }
    }

    /// Takes the outcomes of a cycle at time `now`, in the order of
    /// `probe_targets`: stores a sample of each, updates the outage and the
    /// scores, and returns the state.
    pub fn tick(&mut self, now: i64, outcomes: &Vec<ProbeOutcome>) -> (r: StatusUpdate)
        requires
            old(self).store.wf(),
            outcomes@.len() == probed(old(self).store.targets@).len(),
            old(self).store.has_room(outcomes@.len() + 1),
            spans_fit(old(self).store.outages@, now),
        ensures
            final(self).store.wf(),
            r == status(now, outcomes@),
            final(self).store.connectivity@ == with_samples(
                old(self).store.connectivity@,
                probed(old(self).store.targets@),
                outcomes@,
                now,
                outcomes@.len(),
            ),
            outage_step(
                old(self).store.outages@,
                final(self).store.outages@,
                old(self).store.events@,
                final(self).store.events@,
                final(self).store.connectivity@,
                now,
                is_online(outcomes@),
                is_all_down(outcomes@),
            ),
            final(self).store.qoe@ == with_scores(
                old(self).store.qoe@,
                now,
                cycle_qoe(outcomes@),
            ),
            final(self).config == old(self).config,
            final(self).store == (Store {
                connectivity: final(self).store.connectivity,
                outages: final(self).store.outages,
                events: final(self).store.events,
                qoe: final(self).store.qoe,
                ..old(self).store
            }),
    {
        let tasks = self.probe_targets();
        self.store_samples(now, &tasks, outcomes);
        let update = cycle_status(now, outcomes);
        self.update_outage(now, update.online, update.outage_ongoing);
        if let Some(q) = update.qoe {
            self.store.insert_qoe(now, q.gaming, q.video_call, q.streaming, q.web, q.voip);
        }
        update
    }
}

// ---------------------------------------------------------------------------
// The schedule
// ---------------------------------------------------------------------------

/// Whether the loop goes on after a cycle: it ends once the state of a cycle could
/// not be handed over, because nobody listens any more. `None` stands for a cycle
/// of which nothing was handed over: nobody listened from the start, or the cycle
/// failed, and neither ends the loop.
pub fn goes_on(sent: Option<bool>) -> (r: bool)
    ensures
        r == keeps_on(sent),
{
    match sent {
        Some(ok) => ok,
        None => true,
    }
}

/// When each job last ran, in unix milliseconds.
#[derive(Clone, Copy, Debug, PartialEq, Eq, Structural)]
pub struct Schedule {
    pub dns: i64,
    pub public_ip: i64,
    pub security: i64,
    pub traceroute: i64,
    pub devices: i64,
    pub wifi: i64,
    pub maintenance: i64,
}

/// The jobs that a cycle runs, in this order, after the probes, the bandwidth
/// reading, the gateway ping and the interface counters.
#[derive(Clone, Copy, Debug, PartialEq, Eq, Structural)]
pub struct Due {
    pub dns: bool,
    pub public_ip: bool,
    pub security: bool,
    pub traceroute: bool,
    pub devices: bool,
    pub wifi: bool,
    pub maintenance: bool,
}

/// A job is due once its interval has passed since it last ran.
pub open spec fn is_due(now: i64, last: i64, interval_ms: u64) -> bool {
    now - last >= interval_ms
}

fn due_now(now: i64, last: i64, interval_ms: u64) -> (r: bool)
    ensures
        r == is_due(now, last, interval_ms),
{
    now as i128 - last as i128 >= interval_ms as i128
}

impl Schedule {
    /// At the start maintenance has just run and every other job is due.
    pub fn new(now: i64) -> (r: Schedule)
        ensures
            r == Schedule::started(now),
    {
        Schedule {
            dns: 0,
            public_ip: 0,
            security: 0,
            traceroute: 0,
            devices: 0,
            wifi: 0,
            maintenance: now,
        }
    }

    /// Maintenance has just run and every other job is due.
    pub open spec fn started(now: i64) -> Schedule {
        Schedule {
            dns: 0,
            public_ip: 0,
            security: 0,
            traceroute: 0,
            devices: 0,
            wifi: 0,
            maintenance: now,
        }
    }

    /// The jobs due at a time.
    pub open spec fn spec_due(self, now: i64, config: MonitorConfig) -> Due {
        Due {
            dns: is_due(now, self.dns, config.dns_interval_ms),
            public_ip: is_due(now, self.public_ip, config.public_ip_interval_ms),
            security: is_due(now, self.security, config.security_interval_ms),
            traceroute: is_due(now, self.traceroute, config.traceroute_interval_ms),
            devices: is_due(now, self.devices, config.devices_interval_ms),
            wifi: is_due(now, self.wifi, config.wifi_interval_ms),
            maintenance: is_due(now, self.maintenance, config.maintenance_interval_ms),
        }
    }

    /// The schedule once these jobs ran at a time.
    pub open spec fn after(self, now: i64, d: Due) -> Schedule {
        Schedule {
            dns: if d.dns {
                now
            } else {
                self.dns
            },
            public_ip: if d.public_ip {
                now
            } else {
                self.public_ip
            },
            security: if d.security {
                now
            } else {
                self.security
            },
            traceroute: if d.traceroute {
                now
            } else {
                self.traceroute
            },
            devices: if d.devices {
                now
            } else {
                self.devices
            },
            wifi: if d.wifi {
                now
            } else {
                self.wifi
            },
            maintenance: if d.maintenance {
                now
            } else {
                self.maintenance
            },
        }
    }

    /// The jobs to run in a cycle at `now`, which are noted as run.
    pub fn run(&mut self, now: i64, config: &MonitorConfig) -> (r: Due)
        ensures
            r == old(self).spec_due(now, *config),
            *final(self) == old(self).after(now, r),
    {
        let r = Due {
            dns: due_now(now, self.dns, config.dns_interval_ms),
            public_ip: due_now(now, self.public_ip, config.public_ip_interval_ms),
            security: due_now(now, self.security, config.security_interval_ms),
            traceroute: due_now(now, self.traceroute, config.traceroute_interval_ms),
            devices: due_now(now, self.devices, config.devices_interval_ms),
            wifi: due_now(now, self.wifi, config.wifi_interval_ms),
            maintenance: due_now(now, self.maintenance, config.maintenance_interval_ms),
        };
        if r.dns {
            self.dns = now;
        }
        if r.public_ip {
            self.public_ip = now;
        }
        if r.security {
            self.security = now;
        }
        if r.traceroute {
            self.traceroute = now;
        }
        if r.devices {
            self.devices = now;
        }
        if r.wifi {
            self.wifi = now;
        }
        if r.maintenance {
            self.maintenance = now;
        }
        r
    }
}

/// In the first cycle every job is due but maintenance, which has just run; with
/// a clock past every interval.
pub proof fn law_first_cycle_runs_every_job(start: i64, now: i64, config: MonitorConfig)
    requires
        now >= config.dns_interval_ms,
        now >= config.public_ip_interval_ms,
        now >= config.security_interval_ms,
        now >= config.traceroute_interval_ms,
        now >= config.devices_interval_ms,
        now >= config.wifi_interval_ms,
        now - start < config.maintenance_interval_ms,
    ensures
        ({
            let s = Schedule {
                dns: 0,
                public_ip: 0,
                security: 0,
                traceroute: 0,
                devices: 0,
                wifi: 0,
                maintenance: start,
            };
            s.spec_due(now, config) == Due {
                dns: true,
                public_ip: true,
                security: true,
                traceroute: true,
                devices: true,
                wifi: true,
                maintenance: false,
            }
        }),
{
}

/// A job that ran is not due again before its interval has passed, and is due
/// from then on.
pub proof fn law_jobs_keep_their_interval(s: Schedule, now: i64, later: i64, config: MonitorConfig)
    ensures
        ({
            let d = s.spec_due(now, config);
            let t = s.after(now, d);
            let e = t.spec_due(later, config);
            &&& d.dns ==> (e.dns <==> later - now >= config.dns_interval_ms)
            &&& d.public_ip ==> (e.public_ip <==> later - now >= config.public_ip_interval_ms)
            &&& d.security ==> (e.security <==> later - now >= config.security_interval_ms)
            &&& d.traceroute ==> (e.traceroute <==> later - now >= config.traceroute_interval_ms)
            &&& d.devices ==> (e.devices <==> later - now >= config.devices_interval_ms)
            &&& d.wifi ==> (e.wifi <==> later - now >= config.wifi_interval_ms)
            &&& d.maintenance ==> (e.maintenance <==> later - now
                >= config.maintenance_interval_ms)
        }),
{
}

/// A count of milliseconds as a signed 64-bit number, wrapping round.
pub open spec fn wrap_i64(n: nat) -> i64 {
    let m = n as int % 0x1_0000_0000_0000_0000;
    if m < 0x8000_0000_0000_0000 {
        m as i64
    } else {
        (m - 0x1_0000_0000_0000_0000) as i64
    }
}

pub fn wrapped(n: u128) -> (r: i64)
    ensures
        r == wrap_i64(n as nat),
{
    let m: u128 = n % 0x1_0000_0000_0000_0000;
    if m < 0x8000_0000_0000_0000 {
        m as i64
    } else {
        let w: i128 = m as i128 - 0x1_0000_0000_0000_0000;
        w as i64
    }
}

/// The unix time in milliseconds from what the clock reports since the epoch;
/// zero if the clock stands before it.
pub fn now_ms(millis_since_epoch: Option<u128>) -> (r: i64)
    ensures
        r == clock(millis_since_epoch),
{
    match millis_since_epoch {
        Some(n) => wrapped(n),
        None => 0,
    }
}

/// The figures of a cycle are gathered outcome by outcome: one that is down
/// adds nothing, one that is up counts once and gives its loss, and its latency
/// and jitter where they are known.
pub proof fn law_cycles_add_up(a: Seq<ProbeOutcome>, b: Seq<ProbeOutcome>, row: ProbeOutcome)
    ensures
        up_count(a + b) == up_count(a) + up_count(b),
        up_count(seq![row]) == (if row.up {
            1nat
        } else {
            0nat
        }),
        up_count(Seq::<ProbeOutcome>::empty()) == 0,
        up_losses(a + b) == up_losses(a) + up_losses(b),
        up_losses(seq![row]) == (if row.up {
            seq![row.loss_pct]
        } else {
            Seq::empty()
        }),
        up_losses(Seq::<ProbeOutcome>::empty()) == Seq::<u64>::empty(),
        up_latencies(a + b) == up_latencies(a) + up_latencies(b),
        up_latencies(seq![row]) == (if row.up && row.rtt_avg is Some {
            seq![row.rtt_avg->0]
        } else {
            Seq::empty()
        }),
        up_latencies(Seq::<ProbeOutcome>::empty()) == Seq::<u64>::empty(),
        up_jitters(a + b) == up_jitters(a) + up_jitters(b),
        up_jitters(seq![row]) == (if row.up && row.rtt_jitter is Some {
            seq![row.rtt_jitter->0]
        } else {
            Seq::empty()
        }),
        up_jitters(Seq::<ProbeOutcome>::empty()) == Seq::<u64>::empty(),
    decreases b.len(),
{
    reveal_with_fuel(up_count, 2);
    reveal_with_fuel(up_losses, 2);
    reveal_with_fuel(up_latencies, 2);
    reveal_with_fuel(up_jitters, 2);
    assert(seq![row].drop_last() == Seq::<ProbeOutcome>::empty());
    if b.len() == 0 {
        assert(a + b == a);
    } else {
        law_cycles_add_up(a, b.drop_last(), row);
        assert((a + b).drop_last() == a + b.drop_last());
        assert(up_count(a + b) == up_count(a) + up_count(b));
        assert(up_losses(a + b) == up_losses(a) + up_losses(b));
        assert(up_latencies(a + b) == up_latencies(a) + up_latencies(b));
        assert(up_jitters(a + b) == up_jitters(a) + up_jitters(b));
    }
}

/// A target is probed if and only if it is enabled and of the kind "internet".
/// The targets are probed in the order of their table.
pub proof fn law_enabled_internet_targets_are_probed(a: Seq<Target>, b: Seq<Target>, row: Target)
    ensures
        probed(a + b) == probed(a) + probed(b),
        probed(seq![row]) == (if row.enabled && row.kind@ == "internet"@ {
            seq![row]
        } else {
            Seq::empty()
        }),
        probed(Seq::<Target>::empty()) == Seq::<Target>::empty(),
    decreases b.len(),
{
    reveal_with_fuel(probed, 2);
    assert(seq![row].drop_last() == Seq::<Target>::empty());
    if b.len() == 0 {
        assert(a + b == a);
    } else {
        law_enabled_internet_targets_are_probed(a, b.drop_last(), row);
        assert((a + b).drop_last() == a + b.drop_last());
        assert(probed(a + b) == probed(a) + probed(b));
    }
}

/// An outage is open as long as it has no end.
pub proof fn law_outages_without_an_end_are_open(a: Seq<Outage>, b: Seq<Outage>, row: Outage)
    ensures
        open_count(a + b) == open_count(a) + open_count(b),
        open_count(seq![row]) == (if row.ts_end is None {
            1nat
        } else {
            0nat
        }),
        open_count(Seq::<Outage>::empty()) == 0,
    decreases b.len(),
{
    reveal_with_fuel(open_count, 2);
    assert(seq![row].drop_last() == Seq::<Outage>::empty());
    if b.len() == 0 {
        assert(a + b == a);
    } else {
        law_outages_without_an_end_are_open(a, b.drop_last(), row);
        assert((a + b).drop_last() == a + b.drop_last());
        assert(open_count(a + b) == open_count(a) + open_count(b));
    }
}


/// Where no outcome of a list is up, none is counted. Where one is, its figures
/// are among those that are taken.
proof fn lemma_up(v: Seq<ProbeOutcome>)
    ensures
        up_count(v) <= v.len(),
        up_losses(v).len() == up_count(v),
        up_count(v) == 0 <==> forall|i: int| 0 <= i < v.len() ==> !(#[trigger] v[i]).up,
        forall|i: int|
            0 <= i < v.len() && (#[trigger] v[i]).up && v[i].rtt_avg is Some ==> up_latencies(
                v,
            ).contains(v[i].rtt_avg->0),
        forall|x: u64| #[trigger]
            up_latencies(v).contains(x) ==> exists|i: int|
                0 <= i < v.len() && (#[trigger] v[i]).up && v[i].rtt_avg == Some(x),
    decreases v.len(),
{
    if v.len() > 0 {
        let w = v.drop_last();
        lemma_up(w);
        assert forall|i: int| 0 <= i < w.len() implies w[i] == #[trigger] v[i] by {}
        assert(v[v.len() - 1] == v.last());
        if up_count(v) == 0 {
            assert forall|i: int| 0 <= i < v.len() implies !(#[trigger] v[i]).up by {
                if i < w.len() {
                    assert(!w[i].up);
                }
            }
        } else if forall|i: int| 0 <= i < v.len() ==> !(#[trigger] v[i]).up {
            assert forall|i: int| 0 <= i < w.len() implies !(#[trigger] w[i]).up by {
                assert(!v[i].up);
            }
            assert(!v[v.len() - 1].up);
        }
        let k = up_latencies(w);
        let l = up_latencies(v);
        assert forall|i: int| 0 <= i < v.len() && (#[trigger] v[i]).up && v[i].rtt_avg is Some
            implies l.contains(v[i].rtt_avg->0) by {
            if i < w.len() {
                assert(w[i].up);
                let j = choose|j: int| 0 <= j < k.len() && k[j] == v[i].rtt_avg->0;
                assert(l[j] == k[j]);
            } else {
                assert(l[l.len() - 1] == v[i].rtt_avg->0);
            }
        }
        assert forall|x: u64| #[trigger] l.contains(x) implies exists|i: int|
            0 <= i < v.len() && (#[trigger] v[i]).up && v[i].rtt_avg == Some(x) by {
            let j = choose|j: int| 0 <= j < l.len() && l[j] == x;
            if j < k.len() {
                assert(k[j] == x);
                assert(k.contains(x));
                let i = choose|i: int| 0 <= i < w.len() && (#[trigger] w[i]).up
                    && w[i].rtt_avg == Some(x);
                assert(v[i].up && v[i].rtt_avg == Some(x));
            } else {
                assert(v[v.len() - 1].up && v[v.len() - 1].rtt_avg == Some(x));
            }
        }
    }
}

/// The internet is online while some target answers and down when all of at
/// least one target fail. The best latency is the least of the targets that
/// answer, loss and jitter are their means, rounded down, and the scores are
/// those of the figures of the same update.
pub proof fn law_status_sums_up_the_cycle(now: i64, v: Seq<ProbeOutcome>)
    requires
        v.len() <= u64::MAX,
    ensures
        ({
            let s = status(now, v);
            let losses = up_losses(v);
            let jitters = up_jitters(v);
            &&& s.ts == now
            &&& s.online <==> exists|i: int| 0 <= i < v.len() && (#[trigger] v[i]).up
            &&& s.outage_ongoing <==> v.len() > 0 && forall|i: int|
                0 <= i < v.len() ==> !(#[trigger] v[i]).up
            &&& s.targets_total == v.len()
            &&& s.targets_up == up_count(v)
            &&& match s.best_latency_ms {
                Some(m) => {
                    &&& exists|i: int|
                        0 <= i < v.len() && (#[trigger] v[i]).up && v[i].rtt_avg == Some(m)
                    &&& forall|i: int|
                        0 <= i < v.len() && (#[trigger] v[i]).up && v[i].rtt_avg is Some ==> m
                            <= v[i].rtt_avg->0
                },
                None => forall|i: int|
                    0 <= i < v.len() && (#[trigger] v[i]).up ==> v[i].rtt_avg is None,
            }
            &&& s.avg_loss_pct is Some <==> s.online
            &&& s.avg_loss_pct is Some ==> s.avg_loss_pct->0 * losses.len() <= stats::total(losses)
                < (s.avg_loss_pct->0 + 1) * losses.len()
            &&& s.avg_jitter_ms is Some <==> jitters.len() > 0
            &&& s.avg_jitter_ms is Some ==> s.avg_jitter_ms->0 * jitters.len() <= stats::total(
                jitters,
            ) < (s.avg_jitter_ms->0 + 1) * jitters.len()
            &&& s.qoe is Some <==> s.online
            &&& s.qoe is Some ==> s.qoe->0 == Qoe::of(
                match s.best_latency_ms {
                    Some(m) => m as int,
                    None => 0,
                },
                match s.avg_jitter_ms {
                    Some(m) => m as int,
                    None => 0,
                },
                match s.avg_loss_pct {
                    Some(m) => m as int,
                    None => 0,
                },
            )
        }),
{
    lemma_up(v);
    let l = up_latencies(v);
    stats::law_minimum_is_least(l);
    stats::law_mean_divides_the_total(up_losses(v));
    stats::law_mean_divides_the_total(up_jitters(v));
    if l.len() > 0 {
        stats::law_extremes_bound_every_value(l, 0);
        let m = stats::minimum(l)->0;
        assert forall|i: int| 0 <= i < v.len() && (#[trigger] v[i]).up && v[i].rtt_avg is Some implies m
            <= v[i].rtt_avg->0 by {
            let j = choose|j: int| 0 <= j < l.len() && l[j] == v[i].rtt_avg->0;
            stats::law_extremes_bound_every_value(l, j);
        }
    }
}

/// Every probe of a cycle is recorded as it came, under its target, behind the
/// samples that were there, with numbers that go on by one.
pub proof fn law_every_probe_is_recorded(
    v: Seq<ConnectivitySample>,
    targets: Seq<Target>,
    outcomes: Seq<ProbeOutcome>,
    now: i64,
    n: nat,
    k: int,
)
    requires
        n < i64::MAX,
        v.len() > 0 ==> v.last().id + n <= i64::MAX,
        0 <= k < n,
    ensures
        ({
            let r = with_samples(v, targets, outcomes, now, n);
            let s = r[v.len() + k];
            &&& r.len() == v.len() + n
            &&& r.take(v.len() as int) == v
            &&& s.ts == now
            &&& s.target_id == targets[k].id
            &&& s.ip_version == probe_version(targets[k])
            &&& s.sent == outcomes[k].sent && s.received == outcomes[k].received
            &&& s.loss_pct == outcomes[k].loss_pct
            &&& s.rtt_min == outcomes[k].rtt_min
            &&& s.rtt_avg == outcomes[k].rtt_avg
            &&& s.rtt_max == outcomes[k].rtt_max
            &&& s.rtt_jitter == outcomes[k].rtt_jitter
            &&& s.up == outcomes[k].up
            &&& s.id == (if v.len() == 0 {
                k + 1
            } else {
                v.last().id + k + 1
            })
        }),
    decreases n,
{
    let m = (n - 1) as nat;
    let before = with_samples(v, targets, outcomes, now, m);
    if m > 0 {
        law_every_probe_is_recorded(v, targets, outcomes, now, m, m - 1);
        if k < m {
            law_every_probe_is_recorded(v, targets, outcomes, now, m, k);
        }
        assert(before[v.len() + m - 1] == before.last());
    }
    assert(with_samples(v, targets, outcomes, now, n).take(v.len() as int) == before.take(
        v.len() as int,
    ));
    assert(before.take(v.len() as int) == v);
    assert(store::sample_ids(before).len() == before.len());
}

/// A cycle that is online records its scores, one that is not records none.
pub proof fn law_scores_are_recorded(v: Seq<QoeScore>, now: i64, outcomes: Seq<ProbeOutcome>)
    ensures
        ({
            let r = with_scores(v, now, cycle_qoe(outcomes));
            let q = status(now, outcomes).qoe;
            if exists|i: int| 0 <= i < outcomes.len() && (#[trigger] outcomes[i]).up {
                &&& r.len() == v.len() + 1
                &&& r.drop_last() == v
                &&& r.last().ts == now
                &&& r.last().gaming == q->0.gaming
                &&& r.last().video_call == q->0.video_call
                &&& r.last().streaming == q->0.streaming
                &&& r.last().web == q->0.web
                &&& r.last().voip == q->0.voip
            } else {
                r == v
            }
        }),
{
    lemma_up(outcomes);
    if cycle_qoe(outcomes) is Some {
        assert(with_scores(v, now, cycle_qoe(outcomes)).drop_last() == v);
    }
}

/// When the internet comes back, two events are noted: the disconnect at the
/// start of the outage and the reconnect now, with the time in between. The
/// disconnect is critical unless less than half of the samples were taken in that
/// time that one every 15 seconds would give. An outage starts with the cause that
/// all targets were unreachable.
pub proof fn law_outages_are_noted(
    old_outages: Seq<Outage>,
    new_outages: Seq<Outage>,
    old_events: Seq<Event>,
    new_events: Seq<Event>,
    samples: Seq<ConnectivitySample>,
    now: i64,
    online: bool,
    all_down: bool,
)
    requires
        spans_fit(old_outages, now),
        outage_step(
            old_outages,
            new_outages,
            old_events,
            new_events,
            samples,
            now,
            online,
            all_down,
        ),
    ensures
        match tables::open_outage_at(old_outages) {
            None if all_down => text::opt_text(new_outages.last().cause) == Some(
                "all internet targets unreachable"@,
            ),
            Some(i) if online => {
                let n = old_events.len() as int;
                let start = old_outages[i].ts_start;
                &&& new_events.len() == n + 2
                &&& new_events.take(n) == old_events
                &&& new_events[n].ts == start
                &&& new_events[n].kind@ == "disconnect"@
                &&& new_events[n].duration_ms is None
                &&& new_events[n].severity@ == (if now > start && 2 * 15_000
                    * diagnostics::samples_between(samples, start, now) < now - start {
                    "info"@
                } else {
                    "critical"@
                })
                &&& new_events[n + 1].ts == now
                &&& new_events[n + 1].kind@ == "reconnect"@
                &&& new_events[n + 1].severity@ == "info"@
                &&& new_events[n + 1].duration_ms is Some
                &&& new_events[n + 1].duration_ms->0 == now - start
            },
            _ => true,
        },
{
    order::law_newest_kept(rows::stamps(old_outages), tables::open_ones(old_outages));
    match tables::open_outage_at(old_outages) {
        Some(i) if online => {
            let n = old_events.len() as int;
            let mid = new_events.drop_last();
            assert(tables::open_ones(old_outages)[i]);
            assert(old_outages[i].ts_end is None);
            assert(mid[n] == mid.last());
            assert(new_events[n] == mid[n]);
            assert(new_events.take(n) == mid.drop_last());
        },
        _ => {},
    }
}

/// A job is due once its own interval has passed since it last ran. It then
/// counts as run now; the others keep their time.
pub proof fn law_jobs_wait_for_their_interval(s: Schedule, now: i64, config: MonitorConfig)
    ensures
        ({
            let d = s.spec_due(now, config);
            let t = s.after(now, d);
            &&& d.dns <==> now - s.dns >= config.dns_interval_ms
            &&& d.public_ip <==> now - s.public_ip >= config.public_ip_interval_ms
            &&& d.security <==> now - s.security >= config.security_interval_ms
            &&& d.traceroute <==> now - s.traceroute >= config.traceroute_interval_ms
            &&& d.devices <==> now - s.devices >= config.devices_interval_ms
            &&& d.wifi <==> now - s.wifi >= config.wifi_interval_ms
            &&& d.maintenance <==> now - s.maintenance >= config.maintenance_interval_ms
            &&& t.dns == s.dns || d.dns && t.dns == now
            &&& t.public_ip == s.public_ip || d.public_ip && t.public_ip == now
            &&& t.security == s.security || d.security && t.security == now
            &&& t.traceroute == s.traceroute || d.traceroute && t.traceroute == now
            &&& t.devices == s.devices || d.devices && t.devices == now
            &&& t.wifi == s.wifi || d.wifi && t.wifi == now
            &&& t.maintenance == s.maintenance || d.maintenance && t.maintenance == now
        }),
{
}

/// A count of milliseconds that fits is taken as it is, a larger one differs by
/// a multiple of 2^64.
pub proof fn law_times_wrap(n: nat)
    ensures
        n <= i64::MAX ==> wrap_i64(n) == n,
        (n - wrap_i64(n)) % 0x1_0000_0000_0000_0000 == 0,
{
    let size: int = 0x1_0000_0000_0000_0000;
    let q = n as int / size;
    assert(n == size * q + n as int % size) by {
        vstd::arithmetic::div_mod::lemma_fundamental_div_mod(n as int, size);
    }
    if n as int % size < 0x8000_0000_0000_0000 {
        assert((size * q) % size == 0);
    } else {
        assert((size * (q + 1)) % size == 0);
        assert(n - wrap_i64(n) == size * (q + 1));
    }
}

/// A target is probed over its own version of the protocol, and over the fourth
/// where it names none.
pub proof fn law_targets_are_probed_over_their_version(t: Target, p: ProbeTask)
    requires
        is_task(p, t),
    ensures
        p.target_id == t.id,
        p.host@ == t.host@,
        t.ip_version is None ==> p.ip_version == 4,
        t.ip_version is Some && 0 <= t.ip_version->0 < 256 ==> p.ip_version == t.ip_version->0,
{
}

/// A configuration samples as it does where nothing else is said.
pub open spec fn samples_by_default(c: MonitorConfig) -> bool {
    &&& c.interval_ms == 15_000 && c.maintenance_interval_ms == 3_600_000
    &&& c.dns_interval_ms == 60_000 && c.devices_interval_ms == 60_000
    &&& c.public_ip_interval_ms == 600_000 && c.traceroute_interval_ms == 600_000
    &&& c.security_interval_ms == 300_000 && c.wifi_interval_ms == 30_000
    &&& c.dns_timeout_ms == 3_000 && c.public_ip_timeout_ms == 5_000
    &&& c.security_timeout_ms == 4_000 && c.traceroute_timeout_ms == 40_000
}

/// By default there are four probe cycles a minute and two looks at the wireless link, a
/// minute between lookups and scans, five between looks at the posture, ten between traces
/// and looks at the address and an hour between runs of the maintenance. No job may take
/// longer than its interval.
pub proof fn law_default_intervals(c: MonitorConfig)
    requires
        samples_by_default(c),
    ensures
        4 * c.interval_ms == 60 * 1000,
        2 * c.wifi_interval_ms == 60 * 1000,
        c.dns_interval_ms == 60 * 1000 && c.devices_interval_ms == 60 * 1000,
        c.security_interval_ms == 5 * 60 * 1000,
        c.public_ip_interval_ms == 10 * 60 * 1000 && c.traceroute_interval_ms == 10 * 60 * 1000,
        c.maintenance_interval_ms == 60 * 60 * 1000,
        c.dns_timeout_ms == 3 * 1000 && c.public_ip_timeout_ms == 5 * 1000,
        c.security_timeout_ms == 4 * 1000 && c.traceroute_timeout_ms == 40 * 1000,
        c.dns_timeout_ms < c.dns_interval_ms && c.public_ip_timeout_ms < c.public_ip_interval_ms,
        c.security_timeout_ms < c.security_interval_ms,
        c.traceroute_timeout_ms < c.traceroute_interval_ms,
{
}

/// Whether the loop goes on after a cycle.
pub open spec fn keeps_on(sent: Option<bool>) -> bool {
    sent != Some(false)
}

/// The unix time from what the clock reports.
pub open spec fn clock(millis_since_epoch: Option<u128>) -> i64 {
    match millis_since_epoch {
        Some(n) => wrap_i64(n as nat),
        None => 0,
    }
}

/// The loop ends once a state could not be handed over, and on nothing else.
pub proof fn law_loop_ends_when_nobody_listens(sent: bool)
    ensures
        keeps_on(None),
        keeps_on(Some(sent)) <==> sent,
{
}

/// The time is what the clock says, and zero where it stands before the epoch.
pub proof fn law_time_is_what_the_clock_says(n: u128)
    ensures
        clock(None) == 0,
        n <= i64::MAX ==> clock(Some(n)) == n,
{
    law_times_wrap(n as nat);
}

/// After the start the first maintenance waits for its interval and no other job waits for
/// longer than the time since the epoch.
pub proof fn law_jobs_are_due_at_the_start(start: i64, now: i64, config: MonitorConfig)
    ensures
        ({
            let d = Schedule::started(start).spec_due(now, config);
            &&& d.maintenance <==> now - start >= config.maintenance_interval_ms
            &&& d.dns <==> now >= config.dns_interval_ms
            &&& d.public_ip <==> now >= config.public_ip_interval_ms
            &&& d.security <==> now >= config.security_interval_ms
            &&& d.traceroute <==> now >= config.traceroute_interval_ms
            &&& d.devices <==> now >= config.devices_interval_ms
            &&& d.wifi <==> now >= config.wifi_interval_ms
        }),
{
}

} // verus!
