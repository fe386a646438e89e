//! Testing tables that come from elsewhere, such as a database file.

use vstd::prelude::*;

use crate::monitor;
use crate::rows::{
    ConnectivitySample, Device, Event, Outage, Rollup, Setting, Target, TracerouteView,
};
use crate::store;
use crate::store::Store;
use crate::text;

verus! {

fn ids_increase(ids: &Vec<i64>) -> (r: bool)
    ensures
        r == store::increasing(ids@),
{
    let mut i: usize = 1;
    while i < ids.len()
        invariant
            1 <= i,
            i <= ids.len() || ids.len() == 0,
            store::increasing(ids@.take(if i <= ids.len() { i as int } else { 0 })),
        decreases ids.len() - i,
    {
        if ids[i - 1] >= ids[i] {
            return false;
        }
        proof {
            let a = ids@.take(i as int);
            let b = ids@.take(i + 1);
            assert forall|p: int, q: int| 0 <= p < q < b.len() implies #[trigger] b[p]
                < #[trigger] b[q] by {
                if q < i {
                    assert(a[p] < a[q]);
                } else if p < i - 1 {
                    assert(a[p] < a[i - 1]);
                }
            }
        }
        i += 1;
    }
    proof {
        if ids.len() > 0 {
            assert(ids@.take(i as int) == ids@);
        }
    }
    true
}

/// A row with an identifier.
trait Numbered {
    spec fn number(&self) -> i64;

    fn id(&self) -> (r: i64)
        ensures
            r == self.number(),
    ;
}

impl Numbered for Target {
    spec fn number(&self) -> i64 {
        self.id
    }

    fn id(&self) -> (r: i64) {
        self.id
    }
}

impl Numbered for ConnectivitySample {
    spec fn number(&self) -> i64 {
        self.id
    }

    fn id(&self) -> (r: i64) {
        self.id
    }
}

impl Numbered for Event {
    spec fn number(&self) -> i64 {
        self.id
    }

    fn id(&self) -> (r: i64) {
        self.id
    }
}

impl Numbered for Outage {
    spec fn number(&self) -> i64 {
        self.id
    }

    fn id(&self) -> (r: i64) {
        self.id
    }
}

impl Numbered for Device {
    spec fn number(&self) -> i64 {
        self.id
    }

    fn id(&self) -> (r: i64) {
        self.id
    }
}

impl Numbered for TracerouteView {
    spec fn number(&self) -> i64 {
        self.id
    }

    fn id(&self) -> (r: i64) {
        self.id
    }
}

fn numbers<T: Numbered>(v: &Vec<T>) -> (r: Vec<i64>)
    ensures
        r@ == v@.map_values(|t: T| t.number()),
{
    let ghost all = v@.map_values(|t: T| t.number());
    let mut out: Vec<i64> = Vec::new();
    let mut i: usize = 0;
    while i < v.len()
        invariant
            i <= v.len(),
            all == v@.map_values(|t: T| t.number()),
            out@ == all.take(i as int),
        decreases v.len() - i,
    {
        out.push(v[i].id());
        assert(out@ == all.take(i + 1));
        i += 1;
    }
    assert(all.take(v@.len() as int) == all);
    out
}

fn samples_belong(samples: &Vec<ConnectivitySample>, s: &Store) -> (r: bool)
    ensures
        r == store::samples_have_targets(samples@, s.targets@),
{
    let mut i: usize = 0;
    while i < samples.len()
        invariant
            i <= samples.len(),
            forall|k: int|
                0 <= k < i ==> store::target_ids(s.targets@).contains(
                    (#[trigger] samples@[k]).target_id,
                ),
        decreases samples.len() - i,
    {
        if !s.has_target(samples[i].target_id) {
            assert(!store::target_ids(s.targets@).contains(samples@[i as int].target_id));
            return false;
        }
        i += 1;
    }
    true
}

fn same_mac(a: &Option<String>, b: &Option<String>) -> (r: bool)
    ensures
        r == (text::opt_text(*a) == text::opt_text(*b)),
{
    match (a, b) {
        (Some(x), Some(y)) => text::same_str(x.as_str(), y.as_str()),
        (None, None) => true,
        _ => false,
    }
}

fn devices_differ(v: &Vec<Device>) -> (r: bool)
    ensures
        r == store::macs_differ(v@),
{
    let mut j: usize = 0;
    while j < v.len()
        invariant
            j <= v.len(),
            forall|p: int, q: int|
                0 <= p < q < j && (#[trigger] v@[p]).mac is Some ==> text::opt_text(v@[p].mac)
                    != text::opt_text((#[trigger] v@[q]).mac),
        decreases v.len() - j,
    {
        let mut i: usize = 0;
        while i < j
            invariant
                i <= j < v.len(),
                forall|p: int|
                    0 <= p < i && (#[trigger] v@[p]).mac is Some ==> text::opt_text(v@[p].mac)
                        != text::opt_text(v@[j as int].mac),
            decreases j - i,
        {
            if v[i].mac.is_some() && same_mac(&v[i].mac, &v[j].mac) {
                assert(v@[i as int].mac is Some);
                assert(text::opt_text(v@[i as int].mac) == text::opt_text(v@[j as int].mac));
                return false;
            }
            i += 1;
        }
        j += 1;
    }
    true
}

fn settings_differ(v: &Vec<Setting>) -> (r: bool)
    ensures
        r == store::keys_differ(v@),
{
    let mut j: usize = 0;
    while j < v.len()
        invariant
            j <= v.len(),
            forall|p: int, q: int|
                0 <= p < q < j ==> (#[trigger] v@[p]).key@ != (#[trigger] v@[q]).key@,
        decreases v.len() - j,
    {
        let mut i: usize = 0;
        while i < j
            invariant
                i <= j < v.len(),
                forall|p: int| 0 <= p < i ==> (#[trigger] v@[p]).key@ != v@[j as int].key@,
            decreases j - i,
        {
            if text::same_str(v[i].key.as_str(), v[j].key.as_str()) {
                assert(v@[i as int].key@ == v@[j as int].key@);
                return false;
            }
            i += 1;
        }
        j += 1;
    }
    true
}

fn rollups_differ(v: &Vec<Rollup>) -> (r: bool)
    ensures
        r == store::series_differ(v@),
{
    let mut j: usize = 0;
    while j < v.len()
        invariant
            j <= v.len(),
            forall|p: int, q: int|
                0 <= p < q < j ==> store::rollup_key(#[trigger] v@[p]) != store::rollup_key(
                    #[trigger] v@[q],
                ),
        decreases v.len() - j,
    {
        let mut i: usize = 0;
        while i < j
            invariant
                i <= j < v.len(),
                forall|p: int|
                    0 <= p < i ==> store::rollup_key(#[trigger] v@[p]) != store::rollup_key(
                        v@[j as int],
                    ),
            decreases j - i,
        {
            if v[i].metric == v[j].metric && v[i].target_id == v[j].target_id && v[i].bucket
                == v[j].bucket && v[i].bucket_ts == v[j].bucket_ts {
                assert(store::rollup_key(v@[i as int]) == store::rollup_key(v@[j as int]));
                return false;
            }
            i += 1;
        }
        j += 1;
    }
    true
}

impl Store {
    /// Whether the tables keep the store's invariant.
    pub fn is_wf(&self) -> (r: bool)
        ensures
            r == self.wf(),
    {
        let targets = numbers(&self.targets);
        let samples = numbers(&self.connectivity);
        let events = numbers(&self.events);
        let outages = numbers(&self.outages);
        let devices = numbers(&self.devices);
        let traces = numbers(&self.traceroutes);
        proof {
            assert(targets@ == store::target_ids(self.targets@));
            assert(samples@ == store::sample_ids(self.connectivity@));
            assert(events@ == store::event_ids(self.events@));
            assert(outages@ == store::outage_ids(self.outages@));
            assert(devices@ == store::device_ids(self.devices@));
            assert(traces@ == store::trace_ids(self.traceroutes@));
        }
        ids_increase(&targets) && ids_increase(&samples) && ids_increase(&events) && ids_increase(
            &outages,
        ) && ids_increase(&devices) && ids_increase(&traces) && samples_belong(
            &self.connectivity,
            self,
        ) && devices_differ(&self.devices) && settings_differ(&self.settings) && rollups_differ(
            &self.rollups,
        )
    }

    /// Whether the length of every open outage fits in 64 bits at this time.
    pub fn spans_fit_at(&self, now: i64) -> (r: bool)
        ensures
            r == monitor::spans_fit(self.outages@, now),
    {
        let mut i: usize = 0;
        while i < self.outages.len()
            invariant
                i <= self.outages.len(),
                forall|k: int|
                    0 <= k < i && (#[trigger] self.outages@[k]).ts_end is None ==> i64::MIN <= now
                        - self.outages@[k].ts_start <= i64::MAX,
            decreases self.outages.len() - i,
        {
            let o = &self.outages[i];
            if o.ts_end.is_none() {
                let span: i128 = now as i128 - o.ts_start as i128;
                if span < i64::MIN as i128 || span > i64::MAX as i128 {
                    assert(self.outages@[i as int].ts_end is None);
                    return false;
                }
            }
            i += 1;
        }
        true
    }
}

} // verus!
