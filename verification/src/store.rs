//! The store: Tracium's tables and what each operation does to them.

use vstd::prelude::*;

use crate::rows::{
    BandwidthNow, Bucket, ConnectivitySample, Device, DnsSample, Event, InterfaceErrorSample,
    InterfaceSample, Metric, NewTarget, Outage, QoeScore, Rollup, SecuritySnapshot, Setting,
    SpeedtestRow, Target, TracerouteView, WifiSample,
};
use crate::text;

verus! {

/// Why the store refused an operation.
#[derive(Clone, Copy, Debug, PartialEq, Eq, Structural)]
pub enum StoreError {
    /// A sample names a target that does not exist.
    NoSuchTarget,
    /// The table has no identifier left.
    Full,
    /// A sum does not fit in a 64-bit integer.
    Overflow,
}

/// All tables. Rows stand in the order in which they were stored.
pub struct Store {
    pub targets: Vec<Target>,
    pub settings: Vec<Setting>,
    pub connectivity: Vec<ConnectivitySample>,
    pub events: Vec<Event>,
    pub outages: Vec<Outage>,
    pub bandwidth: Vec<BandwidthNow>,
    pub interfaces: Vec<InterfaceSample>,
    pub interface_errors: Vec<InterfaceErrorSample>,
    pub speedtests: Vec<SpeedtestRow>,
    pub wifi: Vec<WifiSample>,
    pub devices: Vec<Device>,
    pub traceroutes: Vec<TracerouteView>,
    pub security: Vec<SecuritySnapshot>,
    pub dns: Vec<DnsSample>,
    pub qoe: Vec<QoeScore>,
    pub rollups: Vec<Rollup>,
}

// ---------------------------------------------------------------------------
// Validity
// ---------------------------------------------------------------------------

/// Identifiers grow from row to row.
pub open spec fn increasing(ids: Seq<i64>) -> bool {
    forall|i: int, j: int| 0 <= i < j < ids.len() ==> #[trigger] ids[i] < #[trigger] ids[j]
}

pub open spec fn target_ids(v: Seq<Target>) -> Seq<i64> {
    v.map_values(|t: Target| t.id)
}

pub open spec fn sample_ids(v: Seq<ConnectivitySample>) -> Seq<i64> {
    v.map_values(|s: ConnectivitySample| s.id)
}

pub open spec fn event_ids(v: Seq<Event>) -> Seq<i64> {
    v.map_values(|e: Event| e.id)
}

pub open spec fn outage_ids(v: Seq<Outage>) -> Seq<i64> {
    v.map_values(|o: Outage| o.id)
}

pub open spec fn device_ids(v: Seq<Device>) -> Seq<i64> {
    v.map_values(|d: Device| d.id)
}

pub open spec fn trace_ids(v: Seq<TracerouteView>) -> Seq<i64> {
    v.map_values(|t: TracerouteView| t.id)
}

/// Every sample belongs to a target.
pub open spec fn samples_have_targets(
    samples: Seq<ConnectivitySample>,
    targets: Seq<Target>,
) -> bool {
    forall|i: int|
        0 <= i < samples.len() ==> target_ids(targets).contains((#[trigger] samples[i]).target_id)
}

/// No two devices share a MAC.
pub open spec fn macs_differ(v: Seq<Device>) -> bool {
    forall|i: int, j: int|
        0 <= i < j < v.len() && (#[trigger] v[i]).mac is Some ==> text::opt_text(v[i].mac)
            != text::opt_text((#[trigger] v[j]).mac)
}

/// No two settings share a key.
pub open spec fn keys_differ(v: Seq<Setting>) -> bool {
    forall|i: int, j: int| 0 <= i < j < v.len() ==> (#[trigger] v[i]).key@ != (#[trigger] v[j]).key@
}

/// What a rollup row is known by.
pub open spec fn rollup_key(r: Rollup) -> (Metric, i64, Bucket, i64) {
    (r.metric, r.target_id, r.bucket, r.bucket_ts)
}

/// No two rollups describe the same bucket of the same series.
pub open spec fn series_differ(v: Seq<Rollup>) -> bool {
    forall|i: int, j: int|
        0 <= i < j < v.len() ==> rollup_key(#[trigger] v[i]) != rollup_key(#[trigger] v[j])
}

impl Store {
    /// The invariant of the tables.
    pub open spec fn wf(self) -> bool {
        &&& increasing(target_ids(self.targets@))
        &&& increasing(sample_ids(self.connectivity@))
        &&& increasing(event_ids(self.events@))
        &&& increasing(outage_ids(self.outages@))
        &&& increasing(device_ids(self.devices@))
        &&& increasing(trace_ids(self.traceroutes@))
        &&& samples_have_targets(self.connectivity@, self.targets@)
        &&& macs_differ(self.devices@)
        &&& keys_differ(self.settings@)
        &&& series_differ(self.rollups@)
    }

    /// An empty store.
    pub fn open_in_memory() -> (r: Store)
        ensures
            r.wf(),
            r.targets@.len() == 0 && r.settings@.len() == 0 && r.connectivity@.len() == 0,
            r.events@.len() == 0 && r.outages@.len() == 0 && r.bandwidth@.len() == 0,
            r.interfaces@.len() == 0 && r.interface_errors@.len() == 0,
            r.speedtests@.len() == 0 && r.wifi@.len() == 0 && r.devices@.len() == 0,
            r.traceroutes@.len() == 0 && r.security@.len() == 0 && r.dns@.len() == 0,
            r.qoe@.len() == 0 && r.rollups@.len() == 0,
    {
        Store {
            targets: Vec::new(),
            settings: Vec::new(),
            connectivity: Vec::new(),
            events: Vec::new(),
            outages: Vec::new(),
            bandwidth: Vec::new(),
            interfaces: Vec::new(),
            interface_errors: Vec::new(),
            speedtests: Vec::new(),
            wifi: Vec::new(),
            devices: Vec::new(),
            traceroutes: Vec::new(),
            security: Vec::new(),
            dns: Vec::new(),
            qoe: Vec::new(),
            rollups: Vec::new(),
        }
    }
}

/// The identifier for a new row: one more than the last, 1 in an empty table.
pub open spec fn next_id(ids: Seq<i64>) -> Option<i64> {
    if ids.len() == 0 {
        Some(1)
    } else if ids.last() < i64::MAX {
        Some((ids.last() + 1) as i64)
    } else {
        None
    }
}

pub fn id_after(last: Option<i64>) -> (r: Option<i64>)
    ensures
        r == (match last {
            None => Some(1i64),
            Some(n) => if n < i64::MAX {
                Some((n + 1) as i64)
            } else {
                None
            },
        }),
{
    match last {
        None => Some(1),
        Some(n) => if n < i64::MAX {
            Some(n + 1)
        } else {
            None
        },
    }
}

/// A new identifier is greater than every one before it.
pub proof fn lemma_next_id(ids: Seq<i64>)
    requires
        increasing(ids),
        next_id(ids) is Some,
    ensures
        increasing(ids.push(next_id(ids)->0)),
        !ids.contains(next_id(ids)->0),
{
    let n = next_id(ids)->0;
    assert forall|i: int| 0 <= i < ids.len() implies #[trigger] ids[i] < n by {
        if i < ids.len() - 1 {
            assert(ids[i] < ids[ids.len() - 1]);
        }
    }
}

// ---------------------------------------------------------------------------
// Targets
// ---------------------------------------------------------------------------

/// The targets other than the one with this identifier.
pub open spec fn without_target(v: Seq<Target>, id: i64) -> Seq<Target>
    decreases v.len(),
{
    if v.len() == 0 {
        v
    } else if v[0].id == id {
        without_target(v.skip(1), id)
    } else {
        seq![v[0]] + without_target(v.skip(1), id)
    }
}

proof fn lemma_without_target(v: Seq<Target>, id: i64)
    requires
        increasing(target_ids(v)),
    ensures
        increasing(target_ids(without_target(v, id))),
        forall|x: i64| #[trigger]
            target_ids(without_target(v, id)).contains(x) <==> target_ids(v).contains(x) && x != id,
    decreases v.len(),
{
    let r = without_target(v, id);
    if v.len() > 0 {
        let t = v.skip(1);
        assert(increasing(target_ids(t))) by {
            assert forall|i: int, j: int| 0 <= i < j < target_ids(t).len() implies #[trigger] target_ids(
                t,
            )[i] < #[trigger] target_ids(t)[j] by {
                assert(target_ids(v)[i + 1] < target_ids(v)[j + 1]);
            }
        }
        lemma_without_target(t, id);
        let rt = without_target(t, id);
        assert forall|x: i64| target_ids(v).contains(x) <==> (x == v[0].id || #[trigger] target_ids(
            t,
        ).contains(x)) by {
            if target_ids(v).contains(x) {
                let i = choose|i: int| 0 <= i < v.len() && target_ids(v)[i] == x;
                if i > 0 {
                    assert(target_ids(t)[i - 1] == x);
                }
            }
            if x == v[0].id {
                assert(target_ids(v)[0] == x);
            }
            if target_ids(t).contains(x) {
                let i = choose|i: int| 0 <= i < t.len() && target_ids(t)[i] == x;
                assert(target_ids(v)[i + 1] == x);
            }
        }
        if v[0].id == id {
            assert forall|x: i64| #[trigger] target_ids(r).contains(x) implies target_ids(v).contains(x)
                && x != id by {
                assert(target_ids(t).contains(x));
            }
            assert forall|x: i64| target_ids(v).contains(x) && x != id implies #[trigger] target_ids(
                r,
            ).contains(x) by {
                assert(target_ids(t).contains(x));
            }
        } else {
            assert(r == seq![v[0]] + rt);
            assert forall|x: i64| #[trigger] target_ids(r).contains(x) <==> (x == v[0].id
                || target_ids(rt).contains(x)) by {
                if target_ids(r).contains(x) {
                    let i = choose|i: int| 0 <= i < r.len() && target_ids(r)[i] == x;
                    if i > 0 {
                        assert(target_ids(rt)[i - 1] == x);
                    }
                }
                if x == v[0].id {
                    assert(target_ids(r)[0] == x);
                }
                if target_ids(rt).contains(x) {
                    let i = choose|i: int| 0 <= i < rt.len() && target_ids(rt)[i] == x;
                    assert(target_ids(r)[i + 1] == x);
                }
            }
            assert forall|x: i64| #[trigger] target_ids(r).contains(x) <==> target_ids(v).contains(x)
                && x != id by {
                assert(target_ids(rt).contains(x) <==> target_ids(t).contains(x) && x != id);
            }
            assert forall|i: int, j: int| 0 <= i < j < target_ids(r).len() implies #[trigger] target_ids(
                r,
            )[i] < #[trigger] target_ids(r)[j] by {
                assert(target_ids(r)[j] == target_ids(rt)[j - 1]);
                if i > 0 {
                    assert(target_ids(r)[i] == target_ids(rt)[i - 1]);
                } else {
                    let x = target_ids(rt)[j - 1];
                    assert(target_ids(rt).contains(x));
                    assert(target_ids(t).contains(x));
                    let k = choose|k: int| 0 <= k < t.len() && target_ids(t)[k] == x;
                    assert(target_ids(v)[0] < target_ids(v)[k + 1]);
                }
            }
        }
    }
}

/// The samples of the other targets.
pub open spec fn without_samples(v: Seq<ConnectivitySample>, id: i64) -> Seq<ConnectivitySample> {
    v.filter(|s: ConnectivitySample| s.target_id != id)
}

/// Filtering keeps identifiers growing and keeps nothing that was not there.
pub proof fn lemma_filter_samples(
    v: Seq<ConnectivitySample>,
    pred: spec_fn(ConnectivitySample) -> bool,
)
    requires
        increasing(sample_ids(v)),
    ensures
        increasing(sample_ids(v.filter(pred))),
        forall|i: int|
            0 <= i < v.filter(pred).len() ==> pred(#[trigger] v.filter(pred)[i]) && v.contains(
                v.filter(pred)[i],
            ),
    decreases v.len(),
{
    reveal(Seq::filter);
    if v.len() > 0 {
        let d = v.drop_last();
        assert(increasing(sample_ids(d))) by {
            assert forall|i: int, j: int| 0 <= i < j < sample_ids(d).len() implies #[trigger] sample_ids(
                d,
            )[i] < #[trigger] sample_ids(d)[j] by {
                assert(sample_ids(v)[i] < sample_ids(v)[j]);
            }
        }
        lemma_filter_samples(d, pred);
        let f = d.filter(pred);
        let r = v.filter(pred);
        assert forall|i: int| 0 <= i < r.len() implies pred(#[trigger] r[i]) && v.contains(r[i]) by {
            if i < f.len() {
                assert(r[i] == f[i]);
                let k = choose|k: int| 0 <= k < d.len() && d[k] == f[i];
                assert(v[k] == r[i]);
            } else {
                assert(v[v.len() - 1] == r[i]);
            }
        }
        assert forall|i: int, j: int| 0 <= i < j < sample_ids(r).len() implies #[trigger] sample_ids(
            r,
        )[i] < #[trigger] sample_ids(r)[j] by {
            if j < f.len() {
                assert(sample_ids(f)[i] < sample_ids(f)[j]);
            } else {
                assert(r[i] == f[i]);
                let k = choose|k: int| 0 <= k < d.len() && d[k] == f[i];
                assert(sample_ids(v)[k] < sample_ids(v)[v.len() - 1]);
            }
        }
    }
}

/// The default targets: label, address, IP version.
pub open spec fn default_targets() -> Seq<(Seq<char>, Seq<char>, i64)> {
    seq![
        ("Cloudflare"@, "1.1.1.1"@, 4i64),
        ("Google"@, "8.8.8.8"@, 4i64),
        ("Cloudflare v6"@, "2606:4700:4700::1111"@, 6i64),
    ]
}

/// A freshly seeded default target.
pub open spec fn is_seeded(t: Target, k: int, now: i64) -> bool {
    &&& t.id == k + 1
    &&& t.label@ == default_targets()[k].0
    &&& t.host@ == default_targets()[k].1
    &&& t.kind@ == "internet"@
    &&& t.ip_version == Some(default_targets()[k].2)
    &&& t.enabled
    &&& t.created_at == now
}

fn internet_target(label: &str, host: &str, ip_version: i64, now: i64) -> (r: NewTarget)
    ensures
        r.label@ == label@ && r.host@ == host@ && r.kind@ == "internet"@,
        r.ip_version == Some(ip_version) && r.enabled && r.created_at == now,
{
    NewTarget {
        label: label.to_string(),
        host: host.to_string(),
        kind: "internet".to_string(),
        ip_version: Some(ip_version),
        enabled: true,
        created_at: now,
    }
}

/// The default targets were added if there was none.
pub open spec fn targets_seeded(before: Seq<Target>, after: Seq<Target>, now: i64) -> bool {
    if before.len() > 0 {
        after == before
    } else {
        &&& after.len() == 3
        &&& forall|k: int| 0 <= k < 3 ==> is_seeded(#[trigger] after[k], k, now)
    }
}

/// Seeding leaves a store that has targets as it is; seeding again, at any time,
/// changes nothing.
pub proof fn law_seeding_targets_keeps_them(
    before: Seq<Target>,
    once: Seq<Target>,
    twice: Seq<Target>,
    first: i64,
    second: i64,
)
    requires
        targets_seeded(before, once, first),
        targets_seeded(once, twice, second),
    ensures
        before.len() > 0 ==> once == before,
        once.len() > 0,
        twice == once,
{
}

/// A deleted target is gone and so are its samples; the other targets and their
/// samples stay.
pub proof fn law_deleted_target_leaves_nothing(
    targets: Seq<Target>,
    samples: Seq<ConnectivitySample>,
    id: i64,
)
    requires
        increasing(target_ids(targets)),
        increasing(sample_ids(samples)),
    ensures
        forall|x: i64| #[trigger]
            target_ids(without_target(targets, id)).contains(x) <==> target_ids(targets).contains(x)
                && x != id,
        forall|s: ConnectivitySample| #[trigger]
            without_samples(samples, id).contains(s) <==> samples.contains(s) && s.target_id != id,
{
    lemma_without_target(targets, id);
    let pred = |s: ConnectivitySample| s.target_id != id;
    assert forall|s: ConnectivitySample| #[trigger]
        without_samples(samples, id).contains(s) <==> samples.contains(s) && s.target_id != id by {
        if samples.contains(s) && s.target_id != id {
            let i = choose|i: int| 0 <= i < samples.len() && samples[i] == s;
            samples.lemma_filter_contains(pred, i);
        }
        if without_samples(samples, id).contains(s) {
            lemma_filter_samples(samples, pred);
            let i = choose|i: int| 0 <= i < samples.filter(pred).len()
                && samples.filter(pred)[i] == s;
            assert(pred(samples.filter(pred)[i]));
        }
    }
}

/// A new target as it is stored.
pub open spec fn stored_target(id: i64, input: NewTarget) -> Target {
    Target {
        id,
        label: input.label,
        host: input.host,
        kind: input.kind,
        ip_version: input.ip_version,
        enabled: input.enabled,
        created_at: input.created_at,
    }
}

impl Store {
    /// All targets, by identifier.
    pub fn list_targets(&self) -> (r: &Vec<Target>)
        ensures
            r@ == self.targets@,
    {
        &self.targets
    }

    /// Stores a target under a new identifier and returns it.
    pub fn add_target(&mut self, input: NewTarget) -> (r: Result<Target, StoreError>)
        requires
            old(self).wf(),
        ensures
            final(self).wf(),
            match r {
                Ok(t) => {
                    &&& next_id(target_ids(old(self).targets@)) == Some(t.id)
                    &&& t == stored_target(t.id, input)
                    &&& final(self).targets@ == old(self).targets@.push(t)
                    &&& *final(self) == (Store { targets: final(self).targets, ..*old(self) })
                },
                Err(e) => {
                    &&& e == StoreError::Full
                    &&& next_id(target_ids(old(self).targets@)) is None
                    &&& *final(self) == *old(self)
                },
            },
    {
        let n: usize = self.targets.len();
        let last: Option<i64> = if n == 0 { None } else { Some(self.targets[n - 1].id) };
        let id = match id_after(last) {
            Some(id) => id,
            None => {
                return Err(StoreError::Full);
            },
        };
        let ghost before = self.targets@;
        let row = Target {
            id,
            label: input.label.clone(),
            host: input.host.clone(),
            kind: input.kind.clone(),
            ip_version: input.ip_version,
            enabled: input.enabled,
            created_at: input.created_at,
        };
        let t = Target {
            id,
            label: input.label,
            host: input.host,
            kind: input.kind,
            ip_version: input.ip_version,
            enabled: input.enabled,
            created_at: input.created_at,
        };
        self.targets.push(row);
        proof {
            lemma_next_id(target_ids(before));
            assert(target_ids(self.targets@) == target_ids(before).push(id));
            assert forall|x: i64| target_ids(before).contains(x) implies #[trigger] target_ids(
                self.targets@,
            ).contains(x) by {
                let k = choose|k: int| 0 <= k < before.len() && target_ids(before)[k] == x;
                assert(target_ids(self.targets@)[k] == x);
            }
        }
        Ok(t)
    }

    /// Deletes a target and its connectivity samples.
    pub fn delete_target(&mut self, id: i64)
        requires
            old(self).wf(),
        ensures
            final(self).wf(),
            final(self).targets@ == without_target(old(self).targets@, id),
            final(self).connectivity@ == without_samples(old(self).connectivity@, id),
            *final(self) == (Store {
                targets: final(self).targets,
                connectivity: final(self).connectivity,
                ..*old(self)
            }),
    {
        let ghost all = self.targets@;
        let ghost pred = |s: ConnectivitySample| s.target_id != id;
        let mut kept: Vec<ConnectivitySample> = Vec::new();
        let mut i: usize = 0;
        assert(kept@ == self.connectivity@.take(0).filter(pred)) by {
            reveal(Seq::filter);
        }
        while i < self.connectivity.len()
            invariant
                i <= self.connectivity.len(),
                pred == (|s: ConnectivitySample| s.target_id != id),
                kept@ == self.connectivity@.take(i as int).filter(pred),
            decreases self.connectivity.len() - i,
        {
            proof {
                reveal(Seq::filter);
                assert(self.connectivity@.take(i + 1).drop_last() == self.connectivity@.take(
                    i as int,
                ));
            }
            if self.connectivity[i].target_id != id {
                kept.push(self.connectivity[i]);
            }
            i += 1;
        }
        assert(self.connectivity@.take(self.connectivity@.len() as int) == self.connectivity@);
        proof {
            lemma_filter_samples(self.connectivity@, pred);
            lemma_without_target(all, id);
            assert forall|k: int| 0 <= k < kept@.len() implies target_ids(
                without_target(all, id),
            ).contains((#[trigger] kept@[k]).target_id) by {
                assert(pred(self.connectivity@.filter(pred)[k]));
                let j = choose|j: int|
                    0 <= j < self.connectivity@.len() && self.connectivity@[j] == kept@[k];
                assert(target_ids(all).contains(self.connectivity@[j].target_id));
            }
        }
        self.connectivity = kept;
        let mut k: usize = 0;
        assert(self.targets@.take(0) + without_target(self.targets@.skip(0), id) == without_target(
            all,
            id,
        )) by {
            assert(self.targets@.skip(0) == self.targets@);
        }
        let ghost rest = *self;
        while k < self.targets.len()
            invariant
                k <= self.targets.len(),
                *self == (Store { targets: self.targets, ..rest }),
                self.targets@.take(k as int) + without_target(self.targets@.skip(k as int), id)
                    == without_target(all, id),
            decreases self.targets.len() - k,
        {
            let ghost cur = self.targets@;
            assert(cur.skip(k as int)[0] == cur[k as int]);
            assert(cur.skip(k as int).skip(1) == cur.skip(k + 1));
            if self.targets[k].id == id {
                let _ = self.targets.remove(k);
                assert(self.targets@.take(k as int) == cur.take(k as int));
                assert(self.targets@.skip(k as int) == cur.skip(k + 1));
            } else {
                assert(cur.take(k as int) + (seq![cur[k as int]] + without_target(
                    cur.skip(k + 1),
                    id,
                )) == cur.take(k + 1) + without_target(cur.skip(k + 1), id));
                k += 1;
            }
        }
        proof {
            assert(self.targets@.skip(k as int) == Seq::<Target>::empty());
            assert(self.targets@.take(k as int) + Seq::<Target>::empty() == self.targets@);
        }
    }

    /// Enables or disables a target. Disabled targets are not probed.
    pub fn set_target_enabled(&mut self, id: i64, enabled: bool)
        requires
            old(self).wf(),
        ensures
            final(self).wf(),
            final(self).targets@ == with_enabled(old(self).targets@, id, enabled),
            *final(self) == (Store { targets: final(self).targets, ..*old(self) }),
    {
        let ghost all = self.targets@;
        let ghost rest = *self;
        let ghost f = |t: Target|
            if t.id == id {
                Target { enabled, ..t }
            } else {
                t
            };
        let ghost want = all.map_values(f);
        let mut i: usize = 0;
        while i < self.targets.len()
            invariant
                i <= self.targets.len(),
                f == (|t: Target|
                    if t.id == id {
                        Target { enabled, ..t }
                    } else {
                        t
                    }),
                want == all.map_values(f),
                *self == (Store { targets: self.targets, ..rest }),
                self.targets@.len() == all.len(),
                forall|k: int| 0 <= k < i ==> self.targets@[k] == want[k],
                forall|k: int| i <= k < all.len() ==> self.targets@[k] == all[k],
            decreases self.targets.len() - i,
        {
            if self.targets[i].id == id {
                self.targets[i].enabled = enabled;
            }
            i += 1;
        }
        assert(self.targets@ == want);
        proof {
            assert(target_ids(self.targets@) == target_ids(all));
        }
    }

    /// Stores the default targets if there is none.
    pub fn seed_default_targets(&mut self, now: i64)
        requires
            old(self).wf(),
        ensures
            final(self).wf(),
            targets_seeded(old(self).targets@, final(self).targets@, now),
            *final(self) == (Store { targets: final(self).targets, ..*old(self) }),
    {
        if self.targets.len() > 0 {
            return;
        }
        let ghost start = *self;
        let _ = self.add_target(internet_target("Cloudflare", "1.1.1.1", 4, now));
        assert(self.targets@.len() == 1);
        let _ = self.add_target(internet_target("Google", "8.8.8.8", 4, now));
        assert(self.targets@.len() == 2);
        let _ = self.add_target(internet_target("Cloudflare v6", "2606:4700:4700::1111", 6, now));
        assert(self.targets@.len() == 3);
    }
}

/// The number of a new row is one more than that of the last, and 1 for the first.
pub proof fn law_rows_are_numbered_on(ids: Seq<i64>)
    requires
        increasing(ids),
    ensures
        ids.len() == 0 ==> next_id(ids) == Some(1i64),
        ids.len() > 0 ==> (next_id(ids) is Some <==> ids.last() < i64::MAX),
        ids.len() > 0 && next_id(ids) is Some ==> next_id(ids)->0 == ids.last() + 1,
        next_id(ids) is Some ==> forall|i: int|
            0 <= i < ids.len() ==> #[trigger] ids[i] < next_id(ids)->0,
{
    if next_id(ids) is Some {
        lemma_next_id(ids);
    }
}

/// The targets with one switched on or off.
pub open spec fn with_enabled(v: Seq<Target>, id: i64, enabled: bool) -> Seq<Target> {
    v.map_values(
        |t: Target|
            if t.id == id {
                Target { enabled, ..t }
            } else {
                t
            },
    )
}

/// An empty table is filled with two targets of the fourth version of the protocol
/// and one of the sixth, all enabled and of the kind "internet".
pub proof fn law_first_targets(after: Seq<Target>, now: i64)
    requires
        targets_seeded(Seq::empty(), after, now),
    ensures
        after.len() == 3,
        after[0].label@ == "Cloudflare"@ && after[0].host@ == "1.1.1.1"@ && after[0].ip_version
            == Some(4i64),
        after[1].label@ == "Google"@ && after[1].host@ == "8.8.8.8"@ && after[1].ip_version == Some(
            4i64,
        ),
        after[2].label@ == "Cloudflare v6"@ && after[2].host@ == "2606:4700:4700::1111"@
            && after[2].ip_version == Some(6i64),
        forall|k: int|
            0 <= k < 3 ==> {
                &&& (#[trigger] after[k]).kind@ == "internet"@
                &&& after[k].enabled
                &&& after[k].id == k + 1
                &&& after[k].created_at == now
            },
{
    assert(is_seeded(after[0], 0, now) && is_seeded(after[1], 1, now) && is_seeded(
        after[2],
        2,
        now,
    ));
}

/// A target is stored as it was given, under its number.
pub proof fn law_targets_are_stored_as_given(id: i64, input: NewTarget)
    ensures
        ({
            let t = stored_target(id, input);
            &&& t.id == id
            &&& t.label == input.label
            &&& t.host == input.host
            &&& t.kind == input.kind
            &&& t.ip_version == input.ip_version
            &&& t.enabled == input.enabled
            &&& t.created_at == input.created_at
        }),
{
}

/// Switching a target on or off changes nothing else of it and nothing of the others.
pub proof fn law_switching_changes_one_target(v: Seq<Target>, id: i64, enabled: bool, i: int)
    requires
        0 <= i < v.len(),
    ensures
        ({
            let r = with_enabled(v, id, enabled);
            &&& r.len() == v.len()
            &&& v[i].id == id ==> r[i].enabled == enabled
            &&& v[i].id != id ==> r[i].enabled == v[i].enabled
            &&& r[i].id == v[i].id
            &&& r[i].label == v[i].label
            &&& r[i].host == v[i].host
            &&& r[i].kind == v[i].kind
            &&& r[i].ip_version == v[i].ip_version
            &&& r[i].created_at == v[i].created_at
        }),
{
}

/// Deleting takes out the targets with the number and leaves the others as they
/// were, in their order.
pub proof fn law_deleting_leaves_the_others(a: Seq<Target>, b: Seq<Target>, t: Target, id: i64)
    ensures
        without_target(a + b, id) == without_target(a, id) + without_target(b, id),
        without_target(seq![t], id) == (if t.id == id {
            Seq::empty()
        } else {
            seq![t]
        }),
        without_target(Seq::empty(), id) == Seq::<Target>::empty(),
    decreases a.len(),
{
    reveal_with_fuel(without_target, 2);
    assert(seq![t].skip(1) == Seq::<Target>::empty());
    if a.len() == 0 {
        assert(a + b == b);
        assert(without_target(a, id) + without_target(b, id) == without_target(b, id));
    } else {
        law_deleting_leaves_the_others(a.skip(1), b, t, id);
        assert((a + b).skip(1) == a.skip(1) + b);
        assert((a + b)[0] == a[0]);
        assert(without_target(a + b, id) == without_target(a, id) + without_target(b, id));
    }
}

/// A store is valid if and only if its rows are numbered upwards, every sample has its
/// target, and no two devices share a hardware address, no two settings a key and no two
/// rollups their metric, target, bucket and start.
pub proof fn law_valid_stores_hold_together(s: Store)
    ensures
        s.wf() <==> {
            &&& forall|i: int, j: int|
                0 <= i < j < s.targets@.len() ==> (#[trigger] s.targets@[i]).id < (
                #[trigger] s.targets@[j]).id
            &&& forall|i: int, j: int|
                0 <= i < j < s.connectivity@.len() ==> (#[trigger] s.connectivity@[i]).id < (
                #[trigger] s.connectivity@[j]).id
            &&& forall|i: int, j: int|
                0 <= i < j < s.events@.len() ==> (#[trigger] s.events@[i]).id < (
                #[trigger] s.events@[j]).id
            &&& forall|i: int, j: int|
                0 <= i < j < s.outages@.len() ==> (#[trigger] s.outages@[i]).id < (
                #[trigger] s.outages@[j]).id
            &&& forall|i: int, j: int|
                0 <= i < j < s.devices@.len() ==> (#[trigger] s.devices@[i]).id < (
                #[trigger] s.devices@[j]).id
            &&& forall|i: int, j: int|
                0 <= i < j < s.traceroutes@.len() ==> (#[trigger] s.traceroutes@[i]).id < (
                #[trigger] s.traceroutes@[j]).id
            &&& forall|i: int|
                0 <= i < s.connectivity@.len() ==> exists|k: int|
                    0 <= k < s.targets@.len() && (#[trigger] s.targets@[k]).id == (
                    #[trigger] s.connectivity@[i]).target_id
            &&& forall|i: int, j: int|
                0 <= i < j < s.devices@.len() && (#[trigger] s.devices@[i]).mac is Some && (
                #[trigger] s.devices@[j]).mac is Some ==> s.devices@[i].mac->0@
                    != s.devices@[j].mac->0@
            &&& forall|i: int, j: int|
                0 <= i < j < s.settings@.len() ==> (#[trigger] s.settings@[i]).key@ != (
                #[trigger] s.settings@[j]).key@
            &&& forall|i: int, j: int|
                0 <= i < j < s.rollups@.len() ==> !((#[trigger] s.rollups@[i]).metric == (
                #[trigger] s.rollups@[j]).metric && s.rollups@[i].target_id
                    == s.rollups@[j].target_id && s.rollups@[i].bucket == s.rollups@[j].bucket
                    && s.rollups@[i].bucket_ts == s.rollups@[j].bucket_ts)
        },
{
    assert(increasing(target_ids(s.targets@)) <==> forall|i: int, j: int|
        0 <= i < j < s.targets@.len() ==> (#[trigger] s.targets@[i]).id < (
        #[trigger] s.targets@[j]).id) by {
        let ids = target_ids(s.targets@);
        if increasing(ids) {
            assert forall|i: int, j: int| 0 <= i < j < s.targets@.len() implies (#[trigger] s.targets@[i]).id
                < (#[trigger] s.targets@[j]).id by {
                assert(ids[i] < ids[j]);
            }
        }
    }
    assert(increasing(sample_ids(s.connectivity@)) <==> forall|i: int, j: int|
        0 <= i < j < s.connectivity@.len() ==> (#[trigger] s.connectivity@[i]).id < (
        #[trigger] s.connectivity@[j]).id) by {
        let ids = sample_ids(s.connectivity@);
        if increasing(ids) {
            assert forall|i: int, j: int| 0 <= i < j < s.connectivity@.len() implies (#[trigger] s.connectivity@[i]).id
                < (#[trigger] s.connectivity@[j]).id by {
                assert(ids[i] < ids[j]);
            }
        }
    }
    assert(increasing(event_ids(s.events@)) <==> forall|i: int, j: int|
        0 <= i < j < s.events@.len() ==> (#[trigger] s.events@[i]).id < (
        #[trigger] s.events@[j]).id) by {
        let ids = event_ids(s.events@);
        if increasing(ids) {
            assert forall|i: int, j: int| 0 <= i < j < s.events@.len() implies (#[trigger] s.events@[i]).id
                < (#[trigger] s.events@[j]).id by {
                assert(ids[i] < ids[j]);
            }
        }
    }
    assert(increasing(outage_ids(s.outages@)) <==> forall|i: int, j: int|
        0 <= i < j < s.outages@.len() ==> (#[trigger] s.outages@[i]).id < (
        #[trigger] s.outages@[j]).id) by {
        let ids = outage_ids(s.outages@);
        if increasing(ids) {
            assert forall|i: int, j: int| 0 <= i < j < s.outages@.len() implies (#[trigger] s.outages@[i]).id
                < (#[trigger] s.outages@[j]).id by {
                assert(ids[i] < ids[j]);
            }
        }
    }
    assert(increasing(device_ids(s.devices@)) <==> forall|i: int, j: int|
        0 <= i < j < s.devices@.len() ==> (#[trigger] s.devices@[i]).id < (
        #[trigger] s.devices@[j]).id) by {
        let ids = device_ids(s.devices@);
        if increasing(ids) {
            assert forall|i: int, j: int| 0 <= i < j < s.devices@.len() implies (#[trigger] s.devices@[i]).id
                < (#[trigger] s.devices@[j]).id by {
                assert(ids[i] < ids[j]);
            }
        }
    }
    assert(increasing(trace_ids(s.traceroutes@)) <==> forall|i: int, j: int|
        0 <= i < j < s.traceroutes@.len() ==> (#[trigger] s.traceroutes@[i]).id < (
        #[trigger] s.traceroutes@[j]).id) by {
        let ids = trace_ids(s.traceroutes@);
        if increasing(ids) {
            assert forall|i: int, j: int| 0 <= i < j < s.traceroutes@.len() implies (#[trigger] s.traceroutes@[i]).id
                < (#[trigger] s.traceroutes@[j]).id by {
                assert(ids[i] < ids[j]);
            }
        }
    }
    let ids = target_ids(s.targets@);
    assert(samples_have_targets(s.connectivity@, s.targets@) <==> forall|i: int|
        0 <= i < s.connectivity@.len() ==> exists|k: int|
            0 <= k < s.targets@.len() && (#[trigger] s.targets@[k]).id == (
            #[trigger] s.connectivity@[i]).target_id) by {
        assert forall|i: int| 0 <= i < s.connectivity@.len() implies (ids.contains(
            (#[trigger] s.connectivity@[i]).target_id,
        ) <==> exists|k: int|
            0 <= k < s.targets@.len() && (#[trigger] s.targets@[k]).id
                == s.connectivity@[i].target_id) by {
            let x = s.connectivity@[i].target_id;
            if ids.contains(x) {
                let k = choose|k: int| 0 <= k < ids.len() && ids[k] == x;
                assert(s.targets@[k].id == x);
            }
            if exists|k: int| 0 <= k < s.targets@.len() && (#[trigger] s.targets@[k]).id == x {
                let k = choose|k: int| 0 <= k < s.targets@.len() && (#[trigger] s.targets@[k]).id == x;
                assert(ids[k] == x);
            }
        }
    }
    assert(macs_differ(s.devices@) <==> forall|i: int, j: int|
        0 <= i < j < s.devices@.len() && (#[trigger] s.devices@[i]).mac is Some && (
        #[trigger] s.devices@[j]).mac is Some ==> s.devices@[i].mac->0@ != s.devices@[j].mac->0@);
    assert(series_differ(s.rollups@) <==> forall|i: int, j: int|
        0 <= i < j < s.rollups@.len() ==> !((#[trigger] s.rollups@[i]).metric == (
        #[trigger] s.rollups@[j]).metric && s.rollups@[i].target_id == s.rollups@[j].target_id
            && s.rollups@[i].bucket == s.rollups@[j].bucket && s.rollups@[i].bucket_ts
            == s.rollups@[j].bucket_ts));
}

} // verus!
