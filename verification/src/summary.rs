//! What the stored rows say over a window: reliability, the latest state of each
//! target, resolver comparison and mean quality.

use std::collections::HashSet;

use vstd::prelude::*;

use crate::order;
use crate::probe;
use crate::rows;
use crate::rows::{
    stamps_of, ConnectivitySample, DnsResolverStat, DnsSample, Metric, Outage, QoeAverage, QoeScore,
    Reliability, Target, TargetStatus,
};
use crate::stats;
use crate::store::Store;
use crate::text;

verus! {

// ---------------------------------------------------------------------------
// Reliability
// ---------------------------------------------------------------------------

/// A sample's value of a metric, if it has one.
pub open spec fn metric_value(s: ConnectivitySample, m: Metric) -> Option<u64> {
    match m {
        Metric::Latency => s.rtt_avg,
        Metric::Loss => Some(s.loss_pct),
        Metric::Jitter => s.rtt_jitter,
    }
}

pub fn metric_of(s: &ConnectivitySample, m: Metric) -> (r: Option<u64>)
    ensures
        r == metric_value(*s, m),
{
    match m {
        Metric::Latency => s.rtt_avg,
        Metric::Loss => Some(s.loss_pct),
        Metric::Jitter => s.rtt_jitter,
    }
}

/// A metric's values since a time. Loss counts for reachable targets only: a
/// path that is down is not loss on the connection.
pub open spec fn values_since(v: Seq<ConnectivitySample>, since: i64, m: Metric) -> Seq<u64>
    decreases v.len(),
{
    if v.len() == 0 {
        Seq::empty()
    } else {
        let before = values_since(v.drop_last(), since, m);
        match metric_value(v.last(), m) {
            Some(x) if v.last().ts >= since && (m != Metric::Loss || v.last().up) => before.push(x),
            _ => before,
        }
    }
}

/// The times of the samples since a time; with `up`, of those that were up.
pub open spec fn cycle_times(v: Seq<ConnectivitySample>, since: i64, up: bool) -> Seq<i64>
    decreases v.len(),
{
    if v.len() == 0 {
        Seq::empty()
    } else if v.last().ts >= since && (v.last().up || !up) {
        cycle_times(v.drop_last(), since, up).push(v.last().ts)
    } else {
        cycle_times(v.drop_last(), since, up)
    }
}

/// The cycles: all samples of one time are one cycle.
pub open spec fn cycles(v: Seq<ConnectivitySample>, since: i64, up: bool) -> Set<i64> {
    cycle_times(v, since, up).to_set()
}

/// How many outages began since a time, without those in which the device was
/// asleep or off.
pub open spec fn outages_since(v: Seq<Outage>, since: i64) -> nat
    decreases v.len(),
{
    if v.len() == 0 {
        0
    } else if v.last().ts_start >= since && !rows::is_put_down_to(
        v.last(),
        rows::OUTAGE_CAUSE_GAP@,
    ) {
        outages_since(v.drop_last(), since) + 1
    } else {
        outages_since(v.drop_last(), since)
    }
}

/// The share of cycles in which any target responded; 100 percent of none.
pub open spec fn uptime(up: nat, all: nat) -> nat {
    if all == 0 {
        probe::FULL as nat
    } else {
        up * probe::FULL as nat / all
    }
}

/// Reliability since a time.
pub open spec fn reliability(
    v: Seq<ConnectivitySample>,
    outages: Seq<Outage>,
    since: i64,
) -> Reliability {
    Reliability {
        samples: cycles(v, since, false).len() as u64,
        up_samples: cycles(v, since, true).len() as u64,
        uptime_pct: uptime(cycles(v, since, true).len(), cycles(v, since, false).len()) as u64,
        avg_latency_ms: stats::mean(values_since(v, since, Metric::Latency)),
        avg_loss_pct: stats::mean(values_since(v, since, Metric::Loss)),
        avg_jitter_ms: stats::mean(values_since(v, since, Metric::Jitter)),
        disconnects: outages_since(outages, since) as u64,
    }
}

/// The figures of a reliability, none of them cut to a machine word.
pub open spec fn is_reliability(
    r: Reliability,
    v: Seq<ConnectivitySample>,
    outages: Seq<Outage>,
    since: i64,
) -> bool {
    &&& r.samples == cycles(v, since, false).len()
    &&& r.up_samples == cycles(v, since, true).len()
    &&& r.uptime_pct == uptime(cycles(v, since, true).len(), cycles(v, since, false).len())
    &&& r.avg_latency_ms == stats::mean(values_since(v, since, Metric::Latency))
    &&& r.avg_loss_pct == stats::mean(values_since(v, since, Metric::Loss))
    &&& r.avg_jitter_ms == stats::mean(values_since(v, since, Metric::Jitter))
    &&& r.disconnects == outages_since(outages, since)
}

pub proof fn lemma_push_to_set(s: Seq<i64>, x: i64)
    ensures
        s.push(x).to_set() == s.to_set().insert(x),
{
    let a = s.push(x).to_set();
    let b = s.to_set().insert(x);
    assert forall|y: i64| a.contains(y) <==> b.contains(y) by {
        if a.contains(y) {
            let i = choose|i: int| 0 <= i < s.push(x).len() && s.push(x)[i] == y;
            if i < s.len() {
                assert(s[i] == y);
            }
        }
        if b.contains(y) {
            if y == x {
                assert(s.push(x)[s.len() as int] == y);
            } else {
                let i = choose|i: int| 0 <= i < s.len() && s[i] == y;
                assert(s.push(x)[i] == y);
            }
        }
    }
    assert(a =~= b);
}

/// Cycles with a response are cycles.
pub proof fn lemma_up_cycles(v: Seq<ConnectivitySample>, since: i64)
    ensures
        cycles(v, since, true).subset_of(cycles(v, since, false)),
        cycles(v, since, true).len() <= cycles(v, since, false).len(),
    decreases v.len(),
{
    lemma_up_times(v, since);
    let a = cycle_times(v, since, true);
    let b = cycle_times(v, since, false);
    assert forall|x: i64| a.to_set().contains(x) implies b.to_set().contains(x) by {
        assert(a.contains(x));
    }
    a.lemma_cardinality_of_set();
    b.lemma_cardinality_of_set();
    vstd::set_lib::lemma_len_subset(cycles(v, since, true), cycles(v, since, false));
}

proof fn lemma_up_times(v: Seq<ConnectivitySample>, since: i64)
    ensures
        forall|x: i64| #[trigger]
            cycle_times(v, since, true).contains(x) ==> cycle_times(v, since, false).contains(x),
    decreases v.len(),
{
    if v.len() > 0 {
        lemma_up_times(v.drop_last(), since);
        let a = cycle_times(v.drop_last(), since, true);
        let b = cycle_times(v.drop_last(), since, false);
        let c = cycle_times(v, since, true);
        let d = cycle_times(v, since, false);
        assert forall|x: i64| #[trigger] c.contains(x) implies d.contains(x) by {
            let i = choose|i: int| 0 <= i < c.len() && c[i] == x;
            if i < a.len() {
                assert(a.contains(x)) by {
                    assert(a[i] == x);
                }
                let j = choose|j: int| 0 <= j < b.len() && b[j] == x;
                assert(d[j] == x);
            } else {
                assert(d[d.len() - 1] == x);
            }
        }
    }
}

/// A target that never responds does not skew reliability: a sample of it, in a
/// cycle that has another sample, changes no figure.
pub proof fn law_dead_target_changes_nothing(
    v: Seq<ConnectivitySample>,
    row: ConnectivitySample,
    since: i64,
)
    requires
        !row.up,
        row.rtt_avg is None,
        row.rtt_jitter is None,
        row.ts >= since ==> cycles(v, since, false).contains(row.ts),
    ensures
        cycles(v.push(row), since, false) == cycles(v, since, false),
        cycles(v.push(row), since, true) == cycles(v, since, true),
        values_since(v.push(row), since, Metric::Latency)
            == values_since(v, since, Metric::Latency),
        values_since(v.push(row), since, Metric::Loss) == values_since(v, since, Metric::Loss),
        values_since(v.push(row), since, Metric::Jitter) == values_since(v, since, Metric::Jitter),
{
    let w = v.push(row);
    assert(w.drop_last() == v);
    if row.ts >= since {
        lemma_push_to_set(cycle_times(v, since, false), row.ts);
        assert(cycles(w, since, false) =~= cycles(v, since, false));
    }
}

/// Uptime is at most 100 percent, and is 100 percent exactly when every cycle
/// had a response.
pub proof fn law_uptime_counts_cycles(v: Seq<ConnectivitySample>, since: i64)
    ensures
        ({
            let up = cycles(v, since, true);
            let all = cycles(v, since, false);
            &&& uptime(up.len(), all.len()) <= probe::FULL
            &&& uptime(up.len(), all.len()) == probe::FULL <==> up == all
            &&& all.len() > 0 && up.len() == 0 ==> uptime(up.len(), all.len()) == 0
        }),
{
    lemma_up_cycles(v, since);
    let up = cycles(v, since, true).len() as int;
    let all = cycles(v, since, false).len() as int;
    if all > 0 {
        assert(up * probe::FULL / all <= probe::FULL) by (nonlinear_arith)
            requires
                0 <= up <= all,
                all > 0,
        ;
        if up == all {
            assert(up * probe::FULL / all == probe::FULL) by (nonlinear_arith)
                requires
                    up == all,
                    all > 0,
            ;
            vstd::set_lib::lemma_subset_equality(cycles(v, since, true), cycles(v, since, false));
        } else {
            assert(up * probe::FULL / all < probe::FULL) by (nonlinear_arith)
                requires
                    0 <= up < all,
                    all > 0,
            ;
        }
    } else {
        assert(cycles(v, since, true) =~= cycles(v, since, false));
    }
}

fn values_of(v: &Vec<ConnectivitySample>, since: i64, m: Metric) -> (r: Vec<u64>)
    ensures
        r@ == values_since(v@, since, m),
{
    let mut out: Vec<u64> = Vec::new();
    let mut i: usize = 0;
    while i < v.len()
        invariant
            i <= v.len(),
            out@ == values_since(v@.take(i as int), since, m),
        decreases v.len() - i,
    {
        assert(v@.take(i + 1).drop_last() == v@.take(i as int));
        let s = &v[i];
        if s.ts >= since && (m != Metric::Loss || s.up) {
            if let Some(x) = metric_of(s, m) {
                out.push(x);
            }
        }
        i += 1;
    }
    assert(v@.take(v@.len() as int) == v@);
    out
}

fn count_cycles(v: &Vec<ConnectivitySample>, since: i64, up: bool) -> (r: u64)
    ensures
        r == cycles(v@, since, up).len(),
{
    let mut seen: HashSet<i64> = HashSet::new();
    let mut i: usize = 0;
    assert(seen@ =~= cycles(v@.take(0), since, up)) by {
        assert(cycle_times(v@.take(0), since, up) == Seq::<i64>::empty());
    }
    while i < v.len()
        invariant
            i <= v.len(),
            seen@ == cycles(v@.take(i as int), since, up),
        decreases v.len() - i,
    {
        assert(v@.take(i + 1).drop_last() == v@.take(i as int));
        if v[i].ts >= since && (v[i].up || !up) {
            proof {
                lemma_push_to_set(cycle_times(v@.take(i as int), since, up), v@[i as int].ts);
            }
            seen.insert(v[i].ts);
        }
        i += 1;
    }
    assert(v@.take(v@.len() as int) == v@);
    seen.len() as u64
}

impl Store {
    /// Reliability since a time.
    ///
    /// Uptime counts cycles: the internet was up in a cycle if any target
    /// responded. Means of loss and latency count reachable samples only, so a
    /// path that is always down does not skew them. An outage in which the
    /// device was asleep or off is no disconnect.
    pub fn reliability_since(&self, since: i64) -> (r: Reliability)
        ensures
            r == reliability(self.connectivity@, self.outages@, since),
            is_reliability(r, self.connectivity@, self.outages@, since),
    {
        let samples: u64 = count_cycles(&self.connectivity, since, false);
        let up_samples: u64 = count_cycles(&self.connectivity, since, true);
        proof {
            law_uptime_counts_cycles(self.connectivity@, since);
        }
        let uptime_pct: u64 = if samples > 0 {
            (up_samples as u128 * probe::FULL as u128 / samples as u128) as u64
        } else {
            probe::FULL
        };
        let mut disconnects: u64 = 0;
        let mut i: usize = 0;
        while i < self.outages.len()
            invariant
                i <= self.outages.len(),
                disconnects <= i,
                disconnects == outages_since(self.outages@.take(i as int), since),
            decreases self.outages.len() - i,
        {
            assert(self.outages@.take(i + 1).drop_last() == self.outages@.take(i as int));
            if self.outages[i].ts_start >= since && !self.outages[i].put_down_to(
                rows::OUTAGE_CAUSE_GAP,
            ) {
                disconnects += 1;
            }
            i += 1;
        }
        assert(self.outages@.take(self.outages@.len() as int) == self.outages@);
        Reliability {
            samples,
            up_samples,
            uptime_pct,
            avg_latency_ms: stats::mean_of(&values_of(&self.connectivity, since, Metric::Latency)),
            avg_loss_pct: stats::mean_of(&values_of(&self.connectivity, since, Metric::Loss)),
            avg_jitter_ms: stats::mean_of(&values_of(&self.connectivity, since, Metric::Jitter)),
            disconnects,
        }
    }
}

// ---------------------------------------------------------------------------
// The latest state of each target
// ---------------------------------------------------------------------------

pub open spec fn samples_of(v: Seq<ConnectivitySample>, id: i64) -> Seq<bool> {
    v.map_values(|s: ConnectivitySample| s.target_id == id)
}

/// The newest sample of a target.
pub open spec fn newest_sample(v: Seq<ConnectivitySample>, id: i64) -> Option<ConnectivitySample> {
    match order::newest_kept(rows::stamps(v), samples_of(v, id)) {
        Some(i) => Some(v[i]),
        None => None,
    }
}

/// A target with its newest sample, if it has any.
pub open spec fn status_with(t: Target, s: Option<ConnectivitySample>) -> rows::StatusView {
    rows::StatusView {
        id: t.id,
        label: t.label@,
        host: t.host@,
        ip_version: t.ip_version,
        rtt_avg: match s {
            Some(x) => x.rtt_avg,
            None => None,
        },
        rtt_jitter: match s {
            Some(x) => x.rtt_jitter,
            None => None,
        },
        loss_pct: match s {
            Some(x) => Some(x.loss_pct),
            None => None,
        },
        up: match s {
            Some(x) => Some(x.up),
            None => None,
        },
        ts: match s {
            Some(x) => Some(x.ts),
            None => None,
        },
    }
}

/// Each enabled target with its newest sample.
pub open spec fn statuses(targets: Seq<Target>, v: Seq<ConnectivitySample>) -> Seq<
    rows::StatusView,
> {
    enabled_targets(targets).map_values(|t: Target| status_with(t, newest_sample(v, t.id)))
}

/// The enabled targets, by identifier.
pub open spec fn enabled_targets(v: Seq<Target>) -> Seq<Target>
    decreases v.len(),
{
    if v.len() == 0 {
        v
    } else if v.last().enabled {
        enabled_targets(v.drop_last()).push(v.last())
    } else {
        enabled_targets(v.drop_last())
    }
}

impl Store {
    fn newest_sample_of(&self, id: i64) -> (r: Option<ConnectivitySample>)
        ensures
            r == newest_sample(self.connectivity@, id),
    {
        let mut keep: Vec<bool> = Vec::new();
        let mut i: usize = 0;
        while i < self.connectivity.len()
            invariant
                i <= self.connectivity.len(),
                keep@ == samples_of(self.connectivity@, id).take(i as int),
            decreases self.connectivity.len() - i,
        {
            keep.push(self.connectivity[i].target_id == id);
            assert(keep@ == samples_of(self.connectivity@, id).take(i + 1));
            i += 1;
        }
        assert(keep@ == samples_of(self.connectivity@, id));
        match order::newest_of(&stamps_of(&self.connectivity), &keep) {
            Some(i) => Some(self.connectivity[i]),
            None => None,
        }
    }

    fn status_of(&self, t: &Target) -> (r: TargetStatus)
        ensures
            r@ == status_with(*t, newest_sample(self.connectivity@, t.id)),
    {
        let s = self.newest_sample_of(t.id);
        TargetStatus {
            id: t.id,
            label: t.label.clone(),
            host: t.host.clone(),
            ip_version: t.ip_version,
            rtt_avg: match s {
                Some(s) => s.rtt_avg,
                None => None,
            },
            rtt_jitter: match s {
                Some(s) => s.rtt_jitter,
                None => None,
            },
            loss_pct: match s {
                Some(s) => Some(s.loss_pct),
                None => None,
            },
            up: match s {
                Some(s) => Some(s.up),
                None => None,
            },
            ts: match s {
                Some(s) => Some(s.ts),
                None => None,
            },
        }
    }

    /// Each enabled target with its newest sample.
    pub fn latest_per_target(&self) -> (r: Vec<TargetStatus>)
        ensures
            rows::status_views(r@) == statuses(self.targets@, self.connectivity@),
    {
        let mut out: Vec<TargetStatus> = Vec::new();
        let mut i: usize = 0;
        assert(rows::status_views(out@) == statuses(self.targets@.take(0), self.connectivity@));
        while i < self.targets.len()
            invariant
                i <= self.targets.len(),
                rows::status_views(out@) == statuses(
                    self.targets@.take(i as int),
                    self.connectivity@,
                ),
            decreases self.targets.len() - i,
        {
            let ghost before = self.targets@.take(i as int);
            let ghost after = self.targets@.take(i + 1);
            let ghost done = rows::status_views(out@);
            assert(after.drop_last() == before);
            if self.targets[i].enabled {
                let s = self.status_of(&self.targets[i]);
                out.push(s);
                proof {
                    assert(rows::status_views(out@) == done.push(s@));
                    assert(enabled_targets(after) == enabled_targets(before).push(
                        self.targets@[i as int],
                    ));
                    assert(statuses(after, self.connectivity@) == statuses(
                        before,
                        self.connectivity@,
                    ).push(s@));
                }
            }
            i += 1;
        }
        assert(self.targets@.take(self.targets@.len() as int) == self.targets@);
        out
    }
}

// ---------------------------------------------------------------------------
// Resolvers
// ---------------------------------------------------------------------------

/// The resolvers asked since a time, in order of first use.
pub open spec fn resolvers(v: Seq<DnsSample>, since: i64) -> Seq<Seq<char>>
    decreases v.len(),
{
    if v.len() == 0 {
        Seq::empty()
    } else {
        let before = resolvers(v.drop_last(), since);
        if v.last().ts >= since && !before.contains(v.last().resolver@) {
            before.push(v.last().resolver@)
        } else {
            before
        }
    }
}

pub open spec fn asked(s: DnsSample, since: i64, resolver: Seq<char>) -> bool {
    s.ts >= since && s.resolver@ == resolver
}

pub open spec fn lookups(v: Seq<DnsSample>, since: i64, resolver: Seq<char>) -> nat
    decreases v.len(),
{
    if v.len() == 0 {
        0
    } else if asked(v.last(), since, resolver) {
        lookups(v.drop_last(), since, resolver) + 1
    } else {
        lookups(v.drop_last(), since, resolver)
    }
}

pub open spec fn failures(v: Seq<DnsSample>, since: i64, resolver: Seq<char>) -> nat
    decreases v.len(),
{
    if v.len() == 0 {
        0
    } else if asked(v.last(), since, resolver) && !v.last().success {
        failures(v.drop_last(), since, resolver) + 1
    } else {
        failures(v.drop_last(), since, resolver)
    }
}

pub open spec fn lookup_times(v: Seq<DnsSample>, since: i64, resolver: Seq<char>) -> Seq<u64>
    decreases v.len(),
{
    if v.len() == 0 {
        Seq::empty()
    } else if asked(v.last(), since, resolver) && v.last().lookup_ms is Some {
        lookup_times(v.drop_last(), since, resolver).push(v.last().lookup_ms->0)
    } else {
        lookup_times(v.drop_last(), since, resolver)
    }
}

/// The performance of one resolver since a time.
pub open spec fn stat_of(v: Seq<DnsSample>, since: i64, resolver: Seq<char>) -> rows::StatView {
    rows::StatView {
        resolver,
        avg_ms: stats::mean(lookup_times(v, since, resolver)),
        count: lookups(v, since, resolver) as u64,
        failures: failures(v, since, resolver) as u64,
    }
}

/// The performance of every resolver since a time, by ascending mean.
pub open spec fn comparison(v: Seq<DnsSample>, since: i64) -> Seq<rows::StatView> {
    let names = resolvers(v, since);
    order::ascending(mean_keys(v, since), names.len()).map_values(
        |i: usize| stat_of(v, since, names[i as int]),
    )
}

/// What a mean is ordered by: a resolver without any time comes last.
pub open spec fn mean_key(m: Option<u64>) -> i128 {
    match m {
        Some(x) => x as i128,
        None => 0x1_0000_0000_0000_0000,
    }
}

pub open spec fn mean_keys(v: Seq<DnsSample>, since: i64) -> Seq<i128> {
    resolvers(v, since).map_values(
        |name: Seq<char>| mean_key(stats::mean(lookup_times(v, since, name))),
    )
}

fn has_name(names: &Vec<String>, name: &str) -> (r: bool)
    ensures
        r == names@.map_values(|s: String| s@).contains(name@),
{
    let ghost v = names@.map_values(|s: String| s@);
    let mut i: usize = 0;
    while i < names.len()
        invariant
            i <= names.len(),
            v == names@.map_values(|s: String| s@),
            forall|k: int| 0 <= k < i ==> #[trigger] v[k] != name@,
        decreases names.len() - i,
    {
        if text::same_str(names[i].as_str(), name) {
            assert(v[i as int] == name@);
            return true;
        }
        i += 1;
    }
    false
}

impl Store {
    fn resolver_names(&self, since: i64) -> (r: Vec<String>)
        ensures
            r@.map_values(|s: String| s@) == resolvers(self.dns@, since),
    {
        let mut out: Vec<String> = Vec::new();
        let mut i: usize = 0;
        assert(out@.map_values(|s: String| s@) == resolvers(self.dns@.take(0), since));
        while i < self.dns.len()
            invariant
                i <= self.dns.len(),
                out@.map_values(|s: String| s@) == resolvers(self.dns@.take(i as int), since),
            decreases self.dns.len() - i,
        {
            assert(self.dns@.take(i + 1).drop_last() == self.dns@.take(i as int));
            let ghost before = out@.map_values(|s: String| s@);
            if self.dns[i].ts >= since && !has_name(&out, self.dns[i].resolver.as_str()) {
                out.push(self.dns[i].resolver.clone());
                assert(out@.map_values(|s: String| s@) == before.push(self.dns@[i as int].resolver@));
            }
            i += 1;
        }
        assert(self.dns@.take(self.dns@.len() as int) == self.dns@);
        out
    }

    fn resolver_stat(&self, since: i64, resolver: &str) -> (r: DnsResolverStat)
        ensures
            r@ == stat_of(self.dns@, since, resolver@),
            r.count == lookups(self.dns@, since, resolver@),
            r.failures == failures(self.dns@, since, resolver@),
    {
        let mut times: Vec<u64> = Vec::new();
        let mut count: u64 = 0;
        let mut failed: u64 = 0;
        let mut i: usize = 0;
        while i < self.dns.len()
            invariant
                i <= self.dns.len(),
                count <= i,
                failed <= i,
                times@ == lookup_times(self.dns@.take(i as int), since, resolver@),
                count == lookups(self.dns@.take(i as int), since, resolver@),
                failed == failures(self.dns@.take(i as int), since, resolver@),
            decreases self.dns.len() - i,
        {
            assert(self.dns@.take(i + 1).drop_last() == self.dns@.take(i as int));
            let s = &self.dns[i];
            if s.ts >= since && text::same_str(s.resolver.as_str(), resolver) {
                count += 1;
                if !s.success {
                    failed += 1;
                }
                if let Some(t) = s.lookup_ms {
                    times.push(t);
                }
            }
            i += 1;
        }
        assert(self.dns@.take(self.dns@.len() as int) == self.dns@);
        DnsResolverStat {
            resolver: resolver.to_string(),
            avg_ms: stats::mean_of(&times),
            count,
            failures: failed,
        }
    }

    /// Each resolver's performance since a time, the fastest mean first. A
    /// resolver without any time comes after all others.
    pub fn dns_comparison(&self, since: i64) -> (r: Vec<DnsResolverStat>)
        ensures
            rows::stat_views(r@) == comparison(self.dns@, since),
    {
        let names = self.resolver_names(since);
        let ghost v = resolvers(self.dns@, since);
        assert(names@.len() == v.len());
        let mut keys: Vec<i128> = Vec::new();
        let mut i: usize = 0;
        while i < names.len()
            invariant
                i <= names.len(),
                v == resolvers(self.dns@, since),
                names@.map_values(|s: String| s@) == v,
                names@.len() == v.len(),
                keys@ == mean_keys(self.dns@, since).take(i as int),
            decreases names.len() - i,
        {
            assert(v[i as int] == names@[i as int]@);
            let s = self.resolver_stat(since, names[i].as_str());
            let k: i128 = match s.avg_ms {
                Some(x) => x as i128,
                None => 0x1_0000_0000_0000_0000,
            };
            keys.push(k);
            assert(keys@ == mean_keys(self.dns@, since).take(i + 1));
            i += 1;
        }
        assert(keys@ == mean_keys(self.dns@, since));
        let ord = order::ascending_order(&keys);
        let mut out: Vec<DnsResolverStat> = Vec::new();
        let mut k: usize = 0;
        assert(rows::stat_views(out@) == comparison(self.dns@, since).take(0));
        while k < ord.len()
            invariant
                k <= ord.len(),
                v == resolvers(self.dns@, since),
                names@.map_values(|s: String| s@) == v,
                names@.len() == v.len(),
                ord@ == order::ascending(mean_keys(self.dns@, since), v.len()),
                forall|i: int| 0 <= i < ord@.len() ==> (#[trigger] ord@[i]) < v.len(),
                rows::stat_views(out@) == comparison(self.dns@, since).take(k as int),
            decreases ord.len() - k,
        {
            let ghost done = rows::stat_views(out@);
            assert(v[ord@[k as int] as int] == names@[ord@[k as int] as int]@);
            let s = self.resolver_stat(since, names[ord[k]].as_str());
            out.push(s);
            assert(rows::stat_views(out@) == done.push(s@));
            assert(rows::stat_views(out@) == comparison(self.dns@, since).take(k + 1));
            k += 1;
        }
        assert(rows::stat_views(out@) == comparison(self.dns@, since));
        out
    }
}

/// The fastest mean comes first: no resolver is listed before a faster one, and
/// none without any time before one that has a mean.
pub proof fn law_fastest_resolver_first(v: Seq<DnsSample>, since: i64, i: int, j: int)
    requires
        resolvers(v, since).len() <= usize::MAX,
        0 <= i < j < comparison(v, since).len(),
    ensures
        ({
            let (a, b) = (comparison(v, since)[i].avg_ms, comparison(v, since)[j].avg_ms);
            &&& a is None ==> b is None
            &&& a is Some && b is Some ==> a->0 <= b->0
        }),
{
    let names = resolvers(v, since);
    let keys = mean_keys(v, since);
    let ord = order::ascending(keys, names.len());
    order::law_ascending_is_the_order(keys, names.len());
    assert(order::before(keys, ord[i], ord[j]));
    assert(keys[ord[i] as int] == mean_key(comparison(v, since)[i].avg_ms));
    assert(keys[ord[j] as int] == mean_key(comparison(v, since)[j].avg_ms));
}

/// No resolver is listed twice, and every one asked in the window is listed.
pub proof fn law_resolvers_are_listed_once(v: Seq<DnsSample>, since: i64)
    ensures
        resolvers(v, since).no_duplicates(),
        forall|i: int|
            0 <= i < v.len() && (#[trigger] v[i]).ts >= since ==> resolvers(v, since).contains(
                v[i].resolver@,
            ),
    decreases v.len(),
{
    if v.len() > 0 {
        let d = v.drop_last();
        law_resolvers_are_listed_once(d, since);
        let before = resolvers(d, since);
        let after = resolvers(v, since);
        assert forall|x: Seq<char>| before.contains(x) implies #[trigger] after.contains(x) by {
            let k = choose|k: int| 0 <= k < before.len() && before[k] == x;
            assert(after[k] == x);
        }
        assert forall|i: int| 0 <= i < v.len() && (#[trigger] v[i]).ts >= since implies after.contains(
            v[i].resolver@,
        ) by {
            if i < d.len() {
                assert(d[i] == v[i]);
                assert(before.contains(v[i].resolver@));
            } else if !before.contains(v[i].resolver@) {
                assert(after[after.len() - 1] == v[i].resolver@);
            }
        }
    }
}

// ---------------------------------------------------------------------------
// Mean quality
// ---------------------------------------------------------------------------

pub open spec fn scores_since(v: Seq<QoeScore>, since: i64) -> Seq<QoeScore> {
    v.filter(|s: QoeScore| s.ts >= since)
}

/// The mean scores since a time; `None` of no scores.
pub open spec fn qoe_mean(v: Seq<QoeScore>, since: i64) -> Option<QoeAverage> {
    let w = scores_since(v, since);
    if w.len() == 0 {
        None
    } else {
        Some(
            QoeAverage {
                samples: w.len() as u64,
                gaming: stats::mean(w.map_values(|s: QoeScore| s.gaming)),
                video_call: stats::mean(w.map_values(|s: QoeScore| s.video_call)),
                streaming: stats::mean(w.map_values(|s: QoeScore| s.streaming)),
                web: stats::mean(w.map_values(|s: QoeScore| s.web)),
                voip: stats::mean(w.map_values(|s: QoeScore| s.voip)),
            },
        )
    }
}

impl Store {
    /// The mean scores since a time; `None` if there are no scores.
    pub fn qoe_average_since(&self, since: i64) -> (r: Option<QoeAverage>)
        ensures
            r == qoe_mean(self.qoe@, since),
            r is Some ==> r->0.samples == scores_since(self.qoe@, since).len(),
    {
        let ghost pred = |s: QoeScore| s.ts >= since;
        let mut gaming: Vec<u64> = Vec::new();
        let mut video_call: Vec<u64> = Vec::new();
        let mut streaming: Vec<u64> = Vec::new();
        let mut web: Vec<u64> = Vec::new();
        let mut voip: Vec<u64> = Vec::new();
        let mut i: usize = 0;
        let ghost mut w = Seq::<QoeScore>::empty();
        assert(w == self.qoe@.take(0).filter(pred)) by {
            reveal(Seq::filter);
        }
        while i < self.qoe.len()
            invariant
                i <= self.qoe.len(),
                pred == (|s: QoeScore| s.ts >= since),
                w == self.qoe@.take(i as int).filter(pred),
                gaming@ == w.map_values(|s: QoeScore| s.gaming),
                video_call@ == w.map_values(|s: QoeScore| s.video_call),
                streaming@ == w.map_values(|s: QoeScore| s.streaming),
                web@ == w.map_values(|s: QoeScore| s.web),
                voip@ == w.map_values(|s: QoeScore| s.voip),
            decreases self.qoe.len() - i,
        {
            proof {
                reveal(Seq::filter);
                assert(self.qoe@.take(i + 1).drop_last() == self.qoe@.take(i as int));
            }
            let s = self.qoe[i];
            if s.ts >= since {
                gaming.push(s.gaming);
                video_call.push(s.video_call);
                streaming.push(s.streaming);
                web.push(s.web);
                voip.push(s.voip);
                proof {
                    w = w.push(s);
                }
            }
            i += 1;
        }
        assert(self.qoe@.take(self.qoe@.len() as int) == self.qoe@);
        if gaming.len() == 0 {
            return None;
        }
        Some(
            QoeAverage {
                samples: gaming.len() as u64,
                gaming: stats::mean_of(&gaming),
                video_call: stats::mean_of(&video_call),
                streaming: stats::mean_of(&streaming),
                web: stats::mean_of(&web),
                voip: stats::mean_of(&voip),
            },
        )
    }
}

/// The figures of a window are taken row by row. A row before the window gives none.
/// In it, each row gives its latency and its jitter if it has one, and its loss if
/// the target was up.
pub proof fn law_values_of_the_window_are_taken(
    a: Seq<ConnectivitySample>,
    b: Seq<ConnectivitySample>,
    row: ConnectivitySample,
    since: i64,
)
    ensures
        values_since(a + b, since, Metric::Latency) == values_since(a, since, Metric::Latency)
            + values_since(b, since, Metric::Latency),
        values_since(seq![row], since, Metric::Latency) == (if row.ts >= since
            && row.rtt_avg is Some {
            seq![row.rtt_avg->0]
        } else {
            Seq::empty()
        }),
        values_since(Seq::<ConnectivitySample>::empty(), since, Metric::Latency)
            == Seq::<u64>::empty(),
        values_since(a + b, since, Metric::Loss) == values_since(a, since, Metric::Loss)
            + values_since(b, since, Metric::Loss),
        values_since(seq![row], since, Metric::Loss) == (if row.ts >= since && row.up {
            seq![row.loss_pct]
        } else {
            Seq::empty()
        }),
        values_since(Seq::<ConnectivitySample>::empty(), since, Metric::Loss)
            == Seq::<u64>::empty(),
        values_since(a + b, since, Metric::Jitter) == values_since(a, since, Metric::Jitter)
            + values_since(b, since, Metric::Jitter),
        values_since(seq![row], since, Metric::Jitter) == (if row.ts >= since
            && row.rtt_jitter is Some {
            seq![row.rtt_jitter->0]
        } else {
            Seq::empty()
        }),
        values_since(Seq::<ConnectivitySample>::empty(), since, Metric::Jitter)
            == Seq::<u64>::empty(),
    decreases b.len(),
{
    reveal_with_fuel(values_since, 2);
    assert(seq![row].drop_last() == Seq::<ConnectivitySample>::empty());
    if b.len() == 0 {
        assert(a + b == a);
    } else {
        law_values_of_the_window_are_taken(a, b.drop_last(), row, since);
        assert((a + b).drop_last() == a + b.drop_last());
        assert(values_since(a
            + b, since, Metric::Latency) == values_since(a, since, Metric::Latency)
            + values_since(b, since, Metric::Latency));
        assert(values_since(a + b, since, Metric::Loss) == values_since(a, since, Metric::Loss)
            + values_since(b, since, Metric::Loss));
        assert(values_since(a
            + b, since, Metric::Jitter) == values_since(a, since, Metric::Jitter)
            + values_since(b, since, Metric::Jitter));
    }
}

/// A cycle is a time in the window at which a sample was taken, and it was up if any
/// sample of that time was.
pub proof fn law_cycles_are_the_times_of_the_window(v: Seq<ConnectivitySample>, since: i64, t: i64)
    ensures
        cycles(v, since, false).contains(t) <==> t >= since && exists|i: int|
            0 <= i < v.len() && (#[trigger] v[i]).ts == t,
        cycles(v, since, true).contains(t) <==> t >= since && exists|i: int|
            0 <= i < v.len() && (#[trigger] v[i]).ts == t && v[i].up,
    decreases v.len(),
{
    let all = cycle_times(v, since, false);
    let up = cycle_times(v, since, true);
    if v.len() == 0 {
        assert(!all.contains(t) && !up.contains(t));
    } else {
        let d = v.drop_last();
        law_cycles_are_the_times_of_the_window(d, since, t);
        let x = v.last();
        assert(v[v.len() - 1] == x);
        assert forall|i: int| 0 <= i < d.len() implies d[i] == #[trigger] v[i] by {}
        if x.ts >= since {
            lemma_push_to_set(cycle_times(d, since, false), x.ts);
            if x.up {
                lemma_push_to_set(cycle_times(d, since, true), x.ts);
            }
        }
        if exists|i: int| 0 <= i < d.len() && (#[trigger] d[i]).ts == t {
            let i = choose|i: int| 0 <= i < d.len() && (#[trigger] d[i]).ts == t;
            assert(v[i].ts == t);
        }
        if exists|i: int| 0 <= i < d.len() && (#[trigger] d[i]).ts == t && d[i].up {
            let i = choose|i: int| 0 <= i < d.len() && (#[trigger] d[i]).ts == t && d[i].up;
            assert(v[i].ts == t && v[i].up);
        }
        if exists|i: int| 0 <= i < v.len() && (#[trigger] v[i]).ts == t {
            let i = choose|i: int| 0 <= i < v.len() && (#[trigger] v[i]).ts == t;
            if i < d.len() {
                assert(d[i].ts == t);
            }
        }
        if exists|i: int| 0 <= i < v.len() && (#[trigger] v[i]).ts == t && v[i].up {
            let i = choose|i: int| 0 <= i < v.len() && (#[trigger] v[i]).ts == t && v[i].up;
            if i < d.len() {
                assert(d[i].ts == t && d[i].up);
            }
        }
    }
}

/// Uptime is the share of the cycles that were up, in billionths of a percent, and
/// full if there was no cycle at all.
pub proof fn law_uptime_is_the_share_of_cycles(up: nat, all: nat)
    requires
        up <= all,
    ensures
        all == 0 ==> uptime(up, all) == 100_000_000_000,
        all > 0 ==> uptime(up, all) * all <= up * 100_000_000_000 < (uptime(up, all) + 1) * all,
{
    if all > 0 {
        let (x, n) = (up as int * 100_000_000_000, all as int);
        assert(x / n * n <= x < (x / n + 1) * n) by (nonlinear_arith)
            requires
                n > 0,
                x >= 0,
        ;
    }
}

/// Disconnects are counted one by one: an outage that began in the window counts one,
/// unless it was put down to the device, which was asleep or off.
pub proof fn law_disconnects_of_the_window_count(
    a: Seq<Outage>,
    b: Seq<Outage>,
    row: Outage,
    since: i64,
)
    ensures
        outages_since(a + b, since) == outages_since(a, since) + outages_since(b, since),
        outages_since(seq![row], since) == (if row.ts_start >= since
            && text::opt_text(row.cause) != Some("device was asleep/off"@) {
            1nat
        } else {
            0nat
        }),
        outages_since(Seq::<Outage>::empty(), since) == 0,
    decreases b.len(),
{
    reveal_with_fuel(outages_since, 2);
    assert(seq![row].drop_last() == Seq::<Outage>::empty());
    if b.len() == 0 {
        assert(a + b == a);
    } else {
        law_disconnects_of_the_window_count(a, b.drop_last(), row, since);
        assert((a + b).drop_last() == a + b.drop_last());
        assert(outages_since(a + b, since) == outages_since(a, since) + outages_since(b, since));
    }
}

/// The figures of a window: its cycles, those that were up, and the means of the
/// latencies, losses and jitters that were taken in it.
pub proof fn law_reliability_holds_the_figures(
    v: Seq<ConnectivitySample>,
    outages: Seq<Outage>,
    since: i64,
    r: Reliability,
)
    requires
        is_reliability(r, v, outages, since),
    ensures
        r.samples == cycles(v, since, false).len(),
        r.up_samples == cycles(v, since, true).len(),
        r.up_samples <= r.samples,
        r.samples > 0 ==> r.uptime_pct * r.samples <= r.up_samples * 100_000_000_000 < (r.uptime_pct
            + 1) * r.samples,
        r.samples == 0 ==> r.uptime_pct == 100_000_000_000,
        r.avg_latency_ms == stats::mean(values_since(v, since, Metric::Latency)),
        r.avg_loss_pct == stats::mean(values_since(v, since, Metric::Loss)),
        r.avg_jitter_ms == stats::mean(values_since(v, since, Metric::Jitter)),
        r.disconnects == outages_since(outages, since),
{
    let (up, all) = (cycles(v, since, true), cycles(v, since, false));
    assert forall|t: i64| up.contains(t) implies all.contains(t) by {
        law_cycles_are_the_times_of_the_window(v, since, t);
    }
    vstd::set_lib::lemma_len_subset(up, all);
    law_uptime_is_the_share_of_cycles(up.len(), all.len());
}

/// A sample before the window changes no figure of it, whether or not its target was
/// up, and neither does an outage that began before it.
pub proof fn law_older_samples_change_no_figure(
    v: Seq<ConnectivitySample>,
    row: ConnectivitySample,
    outages: Seq<Outage>,
    since: i64,
)
    requires
        row.ts < since,
    ensures
        forall|m: Metric| #[trigger]
            values_since(v.push(row), since, m) == values_since(v, since, m),
        cycles(v.push(row), since, false) == cycles(v, since, false),
        cycles(v.push(row), since, true) == cycles(v, since, true),
        reliability(v.push(row), outages, since) == reliability(v, outages, since),
        forall|o: Outage|
            o.ts_start < since ==> #[trigger] reliability(v, outages.push(o), since) == reliability(
                v,
                outages,
                since,
            ),
{
    assert(v.push(row).drop_last() == v);
    assert forall|m: Metric| #[trigger] values_since(v.push(row), since, m) == values_since(
        v,
        since,
        m,
    ) by {}
    assert forall|o: Outage| o.ts_start < since implies #[trigger] reliability(
        v,
        outages.push(o),
        since,
    ) == reliability(v, outages, since) by {
        assert(outages.push(o).drop_last() == outages);
    }
}

/// What is known of a resolver is gathered lookup by lookup: one in the window that
/// asked this resolver counts one, as a failure too if it failed, and gives its time
/// if it has one. No other lookup counts.
pub proof fn law_lookups_of_a_resolver_count(
    a: Seq<DnsSample>,
    b: Seq<DnsSample>,
    row: DnsSample,
    since: i64,
    resolver: Seq<char>,
)
    ensures
        lookups(a + b, since, resolver) == lookups(a, since, resolver)
            + lookups(b, since, resolver),
        lookups(seq![row], since, resolver) == (if row.ts >= since && row.resolver@ == resolver {
            1nat
        } else {
            0nat
        }),
        lookups(Seq::<DnsSample>::empty(), since, resolver) == 0,
        failures(a + b, since, resolver) == failures(a, since, resolver)
            + failures(b, since, resolver),
        failures(seq![row], since, resolver) == (if row.ts >= since && row.resolver@ == resolver
            && !row.success {
            1nat
        } else {
            0nat
        }),
        failures(Seq::<DnsSample>::empty(), since, resolver) == 0,
        lookup_times(a + b, since, resolver) == lookup_times(a, since, resolver)
            + lookup_times(b, since, resolver),
        lookup_times(seq![row], since, resolver) == (if row.ts >= since
            && row.resolver@ == resolver && row.lookup_ms is Some {
            seq![row.lookup_ms->0]
        } else {
            Seq::empty()
        }),
        lookup_times(Seq::<DnsSample>::empty(), since, resolver) == Seq::<u64>::empty(),
    decreases b.len(),
{
    reveal_with_fuel(lookups, 2);
    reveal_with_fuel(failures, 2);
    reveal_with_fuel(lookup_times, 2);
    assert(seq![row].drop_last() == Seq::<DnsSample>::empty());
    if b.len() == 0 {
        assert(a + b == a);
    } else {
        law_lookups_of_a_resolver_count(a, b.drop_last(), row, since, resolver);
        assert((a + b).drop_last() == a + b.drop_last());
        assert(lookups(a + b, since, resolver) == lookups(a, since, resolver)
            + lookups(b, since, resolver));
        assert(failures(a + b, since, resolver) == failures(a, since, resolver)
            + failures(b, since, resolver));
        assert(lookup_times(a + b, since, resolver) == lookup_times(a, since, resolver)
            + lookup_times(b, since, resolver));
    }
}

/// The comparison lists every resolver that was asked in the window, and no other,
/// each with the figures of its own lookups.
pub proof fn law_comparison_lists_who_was_asked(v: Seq<DnsSample>, since: i64, k: int)
    requires
        resolvers(v, since).len() <= usize::MAX,
    ensures
        comparison(v, since).len() == resolvers(v, since).len(),
        forall|name: Seq<char>| #[trigger]
            resolvers(v, since).contains(name) <==> exists|i: int|
                0 <= i < v.len() && (#[trigger] v[i]).ts >= since && v[i].resolver@ == name,
        0 <= k < comparison(v, since).len() ==> {
            let s = comparison(v, since)[k];
            &&& resolvers(v, since).contains(s.resolver)
            &&& s.avg_ms == stats::mean(lookup_times(v, since, s.resolver))
            &&& s.count == lookups(v, since, s.resolver) as u64
            &&& s.failures == failures(v, since, s.resolver) as u64
        },
        forall|name: Seq<char>| #[trigger]
            resolvers(v, since).contains(name) ==> exists|i: int|
                0 <= i < comparison(v, since).len() && (#[trigger] comparison(v, since)[i]).resolver
                    == name,
{
    let names = resolvers(v, since);
    let keys = mean_keys(v, since);
    let ord = order::ascending(keys, names.len());
    order::law_ascending_is_the_order(keys, names.len());
    assert forall|name: Seq<char>| #[trigger] names.contains(name) <==> exists|i: int|
        0 <= i < v.len() && (#[trigger] v[i]).ts >= since && v[i].resolver@ == name by {
        lemma_asked(v, since, name);
    }
    assert forall|name: Seq<char>| #[trigger] names.contains(name) implies exists|i: int|
        0 <= i < comparison(v, since).len() && (#[trigger] comparison(v, since)[i]).resolver
            == name by {
        let j = choose|j: int| 0 <= j < names.len() && names[j] == name;
        assert(ord.contains(j as usize));
        let i = choose|i: int| 0 <= i < ord.len() && ord[i] == j as usize;
        assert(comparison(v, since)[i].resolver == name);
    }
    if 0 <= k < comparison(v, since).len() {
        assert(ord[k] < names.len());
        assert(names.contains(names[ord[k] as int]));
    }
}

proof fn lemma_asked(v: Seq<DnsSample>, since: i64, name: Seq<char>)
    ensures
        resolvers(v, since).contains(name) <==> exists|i: int|
            0 <= i < v.len() && (#[trigger] v[i]).ts >= since && v[i].resolver@ == name,
    decreases v.len(),
{
    if v.len() > 0 {
        let d = v.drop_last();
        lemma_asked(d, since, name);
        let before = resolvers(d, since);
        let after = resolvers(v, since);
        let x = v.last();
        assert(v[v.len() - 1] == x);
        if before.contains(name) {
            let k = choose|k: int| 0 <= k < before.len() && before[k] == name;
            assert(after[k] == name);
            let i = choose|i: int|
                0 <= i < d.len() && (#[trigger] d[i]).ts >= since && d[i].resolver@ == name;
            assert(v[i].ts >= since && v[i].resolver@ == name);
        }
        if x.ts >= since && x.resolver@ == name && !before.contains(name) {
            assert(after[after.len() - 1] == name);
        }
        if after.contains(name) && !before.contains(name) {
            let k = choose|k: int| 0 <= k < after.len() && after[k] == name;
            if k < before.len() {
                assert(before[k] == name);
            }
            assert(x.ts >= since && x.resolver@ == name);
        }
        if exists|i: int| 0 <= i < v.len() && (#[trigger] v[i]).ts >= since && v[i].resolver@ == name {
            let i = choose|i: int|
                0 <= i < v.len() && (#[trigger] v[i]).ts >= since && v[i].resolver@ == name;
            if i < d.len() {
                assert(d[i].ts >= since && d[i].resolver@ == name);
            }
        }
    }
}

/// A lookup before the window changes nothing of the comparison.
pub proof fn law_older_lookups_change_no_figure(v: Seq<DnsSample>, row: DnsSample, since: i64)
    requires
        row.ts < since,
    ensures
        comparison(v.push(row), since) == comparison(v, since),
{
    let w = v.push(row);
    assert(w.drop_last() == v);
    assert(resolvers(w, since) == resolvers(v, since));
    assert forall|name: Seq<char>| #[trigger] lookup_times(w, since, name) == lookup_times(
        v,
        since,
        name,
    ) && lookups(w, since, name) == lookups(v, since, name) && failures(w, since, name) == failures(
        v,
        since,
        name,
    ) by {}
    assert(mean_keys(w, since) =~= mean_keys(v, since));
    assert forall|name: Seq<char>| #[trigger] stat_of(w, since, name) == stat_of(v, since, name) by {
        assert(lookup_times(w, since, name) == lookup_times(v, since, name));
    }
    assert(comparison(w, since) =~= comparison(v, since));
}

/// A target's state is its newest sample: of its own samples none is newer, and
/// without any nothing is known of it.
pub proof fn law_state_is_the_newest_sample(v: Seq<ConnectivitySample>, id: i64)
    ensures
        match newest_sample(v, id) {
            Some(s) => s.target_id == id && v.contains(s) && forall|i: int|
                0 <= i < v.len() && (#[trigger] v[i]).target_id == id ==> v[i].ts <= s.ts,
            None => forall|i: int| 0 <= i < v.len() ==> (#[trigger] v[i]).target_id != id,
        },
{
    let times = rows::stamps(v);
    let keep = samples_of(v, id);
    order::law_newest_kept(times, keep);
    match order::newest_kept(times, keep) {
        Some(k) => {
            assert(v.contains(v[k]));
            assert forall|i: int| 0 <= i < v.len() && (#[trigger] v[i]).target_id == id implies v[i].ts
                <= v[k].ts by {
                assert(keep[i]);
                assert(times[i] == v[i].ts && times[k] == v[k].ts);
            }
        },
        None => {
            assert forall|i: int| 0 <= i < v.len() implies (#[trigger] v[i]).target_id != id by {
                assert(!keep[i]);
            }
        },
    }
}

/// Every enabled target is listed, in order, and no other: with its own name and
/// address and the figures of its newest sample.
pub proof fn law_enabled_targets_are_listed(
    a: Seq<Target>,
    b: Seq<Target>,
    t: Target,
    v: Seq<ConnectivitySample>,
)
    ensures
        statuses(a + b, v) == statuses(a, v) + statuses(b, v),
        !t.enabled ==> statuses(seq![t], v).len() == 0,
        t.enabled ==> {
            let s = statuses(seq![t], v)[0];
            &&& statuses(seq![t], v).len() == 1
            &&& s.id == t.id && s.label == t.label@ && s.host == t.host@
            &&& s.ip_version == t.ip_version
            &&& match newest_sample(v, t.id) {
                Some(x) => s.rtt_avg == x.rtt_avg && s.rtt_jitter == x.rtt_jitter && s.loss_pct
                    == Some(x.loss_pct) && s.up == Some(x.up) && s.ts == Some(x.ts),
                None => s.rtt_avg is None && s.rtt_jitter is None && s.loss_pct is None
                    && s.up is None && s.ts is None,
            }
        },
    decreases b.len(),
{
    reveal_with_fuel(enabled_targets, 2);
    assert(seq![t].drop_last() == Seq::<Target>::empty());
    if b.len() == 0 {
        assert(a + b == a);
        assert(statuses(a + b, v) =~= statuses(a, v) + statuses(b, v));
    } else {
        law_enabled_targets_are_listed(a, b.drop_last(), t, v);
        assert((a + b).drop_last() == a + b.drop_last());
        let (x, y) = (enabled_targets(a + b.drop_last()), enabled_targets(b.drop_last()));
        let f = |t: Target| status_with(t, newest_sample(v, t.id));
        assert(x.push(b.last()).map_values(f) =~= x.map_values(f).push(f(b.last())));
        assert(y.push(b.last()).map_values(f) =~= y.map_values(f).push(f(b.last())));
        assert(statuses(a + b, v) =~= statuses(a, v) + statuses(b, v));
    }
}

/// The scores of a window are the means of the scores in it: as many as there are,
/// each over its own figures, and none if there are none. Older scores change
/// nothing.
pub proof fn law_quality_is_the_mean_of_the_window(v: Seq<QoeScore>, since: i64, older: QoeScore)
    requires
        v.len() <= u64::MAX,
    ensures
        ({
            let w = v.filter(|s: QoeScore| s.ts >= since);
            &&& qoe_mean(v, since) is None <==> w.len() == 0
            &&& qoe_mean(v, since) is Some ==> {
                let q = qoe_mean(v, since)->0;
                &&& q.samples == w.len()
                &&& q.gaming == stats::mean(Seq::new(w.len(), |i: int| w[i].gaming))
                &&& q.video_call == stats::mean(Seq::new(w.len(), |i: int| w[i].video_call))
                &&& q.streaming == stats::mean(Seq::new(w.len(), |i: int| w[i].streaming))
                &&& q.web == stats::mean(Seq::new(w.len(), |i: int| w[i].web))
                &&& q.voip == stats::mean(Seq::new(w.len(), |i: int| w[i].voip))
            }
        }),
        older.ts < since ==> qoe_mean(v.push(older), since) == qoe_mean(v, since),
{
    let f = |s: QoeScore| s.ts >= since;
    let w = v.filter(f);
    lemma_filter_len(v, f);
    assert(scores_since(v, since) =~= w);
    assert(w.map_values(|s: QoeScore| s.gaming) =~= Seq::new(w.len(), |i: int| w[i].gaming));
    assert(w.map_values(|s: QoeScore| s.video_call) =~= Seq::new(
        w.len(),
        |i: int| w[i].video_call,
    ));
    assert(w.map_values(|s: QoeScore| s.streaming) =~= Seq::new(w.len(), |i: int| w[i].streaming));
    assert(w.map_values(|s: QoeScore| s.web) =~= Seq::new(w.len(), |i: int| w[i].web));
    assert(w.map_values(|s: QoeScore| s.voip) =~= Seq::new(w.len(), |i: int| w[i].voip));
    if older.ts < since {
        reveal(Seq::filter);
        assert(v.push(older).drop_last() == v);
        assert(scores_since(v.push(older), since) =~= scores_since(v, since));
    }
}

proof fn lemma_filter_len<T>(v: Seq<T>, f: spec_fn(T) -> bool)
    ensures
        v.filter(f).len() <= v.len(),
    decreases v.len(),
{
    reveal(Seq::filter);
    if v.len() > 0 {
        lemma_filter_len(v.drop_last(), f);
    }
}

} // verus!
