//! Rolling raw samples up into hours and days, and pruning what is old.

use std::collections::HashSet;

use vstd::prelude::*;

use crate::order;
use crate::rows::{Bucket, ConnectivitySample, Metric, Rollup};
use crate::stats;
use crate::store;
use crate::store::Store;
use crate::summary;
use crate::tables;
use crate::text;

verus! {

// ---------------------------------------------------------------------------
// Buckets
// ---------------------------------------------------------------------------

/// The start of the span of `size` milliseconds that holds `t`. Times before
/// the epoch are cut towards it.
pub open spec fn span_start(t: int, size: int) -> int {
    if t >= 0 {
        t - t % size
    } else {
        -((-t) - (-t) % size)
    }
}

fn start_of(t: i128, size: i64) -> (r: i128)
    requires
        size > 0,
        -0x4000_0000_0000_0000_0000_0000_0000_0000 < t < 0x4000_0000_0000_0000_0000_0000_0000_0000,
    ensures
        r == span_start(t as int, size as int),
        t >= 0 ==> 0 <= r <= t,
        t < 0 ==> t <= r <= 0,
{
    let n: i128 = size as i128;
    if t >= 0 {
        assert(0 <= t % n <= t) by (nonlinear_arith)
            requires
                t >= 0,
                n > 0,
        ;
        t - t % n
    } else {
        let m: i128 = -t;
        assert(0 <= m % n <= m) by (nonlinear_arith)
            requires
                m >= 0,
                n > 0,
        ;
        -(m - m % n)
    }
}

/// The start of the bucket that holds a time.
pub open spec fn bucket_start(ts: i64, b: Bucket) -> i64 {
    span_start(ts as int, b.spec_millis()) as i64
}

fn bucket_of(ts: i64, b: Bucket) -> (r: i64)
    ensures
        r == bucket_start(ts, b),
        r == span_start(ts as int, b.spec_millis()),
{
    start_of(ts as i128, b.millis()) as i64
}

/// A sample counts for a bucket if the bucket is over and the sample has a value.
pub open spec fn counts_for(
    s: ConnectivitySample,
    m: Metric,
    b: Bucket,
    start: i64,
    now: i64,
) -> bool {
    &&& s.ts < bucket_start(now, b)
    &&& bucket_start(s.ts, b) == start
    &&& summary::metric_value(s, m) is Some
}

/// The values that a bucket sums up.
pub open spec fn bucket_values(
    v: Seq<ConnectivitySample>,
    m: Metric,
    b: Bucket,
    start: i64,
    now: i64,
) -> Seq<u64>
    decreases v.len(),
{
    if v.len() == 0 {
        Seq::empty()
    } else if counts_for(v.last(), m, b, start, now) {
        bucket_values(v.drop_last(), m, b, start, now).push(summary::metric_value(v.last(), m)->0)
    } else {
        bucket_values(v.drop_last(), m, b, start, now)
    }
}

/// The rollup of a bucket with these values.
pub open spec fn rollup_of(m: Metric, b: Bucket, start: i64, vals: Seq<u64>) -> Rollup {
    let s = order::sorted(vals);
    Rollup {
        metric: m,
        target_id: 0,
        bucket: b,
        bucket_ts: start,
        count: vals.len() as u64,
        min: s[0],
        avg: (stats::total(vals) / vals.len()) as u64,
        max: s[s.len() - 1],
        p50: order::percentile_of(s, 50),
        p95: order::percentile_of(s, 95),
        sum: stats::total(vals) as u128,
        pruned: false,
    }
}

/// In every rollup the least value, the median, the 95th percentile and the
/// greatest value ascend, and the mean lies between the extremes.
pub proof fn law_rollup_figures_ascend(m: Metric, b: Bucket, start: i64, vals: Seq<u64>)
    requires
        vals.len() > 0,
    ensures
        ({
            let r = rollup_of(m, b, start, vals);
            &&& r.min <= r.p50 <= r.p95 <= r.max
            &&& r.min <= r.avg <= r.max
        }),
{
    let s = order::sorted(vals);
    order::law_sorted(vals);
    order::law_percentile_between(s, 50);
    order::law_percentile_between(s, 95);
    order::law_percentiles_ascend(s, 50, 95);
    let lo = s[0];
    let hi = s[s.len() - 1];
    s.to_multiset_ensures();
    vals.to_multiset_ensures();
    assert forall|i: int| 0 <= i < vals.len() implies lo <= #[trigger] vals[i] <= hi by {
        assert(vals.contains(vals[i]));
        assert(s.to_multiset().count(vals[i]) > 0);
        assert(s.contains(vals[i]));
        let k = choose|k: int| 0 <= k < s.len() && s[k] == vals[i];
        assert(s[0] <= s[k] <= s[s.len() - 1]);
    }
    stats::lemma_mean_between(vals, lo, hi);
}

/// Samples with times since the epoch.
pub open spec fn since_epoch(v: Seq<ConnectivitySample>) -> bool {
    forall|i: int| 0 <= i < v.len() ==> (#[trigger] v[i]).ts >= 0
}

/// Only buckets that are over are rolled up: a bucket with values ends no later
/// than the bucket of `now` begins.
pub proof fn law_only_closed_buckets(
    v: Seq<ConnectivitySample>,
    m: Metric,
    b: Bucket,
    start: i64,
    now: i64,
)
    requires
        since_epoch(v),
        bucket_values(v, m, b, start, now).len() > 0,
    ensures
        start + b.spec_millis() <= bucket_start(now, b),
    decreases v.len(),
{
    if counts_for(v.last(), m, b, start, now) {
        assert(v[v.len() - 1].ts >= 0);
        let t = v.last().ts as int;
        let n = b.spec_millis();
        let c = bucket_start(now, b) as int;
        let u = now as int;
        assert(start + n <= c) by (nonlinear_arith)
            requires
                start == t - t % n,
                c == u - u % n,
                t < c,
                n > 0,
                t >= 0,
                u >= 0,
        ;
    } else {
        let d = v.drop_last();
        assert forall|i: int| 0 <= i < d.len() implies (#[trigger] d[i]).ts >= 0 by {
            assert(d[i] == v[i]);
        }
        law_only_closed_buckets(d, m, b, start, now);
    }
}

// ---------------------------------------------------------------------------
// The rollup table
// ---------------------------------------------------------------------------

/// What a rollup is known by: metric, target, bucket and start.
pub type Key = (Metric, i64, Bucket, i64);

/// Where the rollup with this key stands.
pub open spec fn rollup_at(v: Seq<Rollup>, k: Key) -> Option<int>
    decreases v.len(),
{
    if v.len() == 0 {
        None
    } else if store::rollup_key(v.last()) == k {
        Some(v.len() - 1)
    } else {
        rollup_at(v.drop_last(), k)
    }
}

/// The rollup with this key.
pub open spec fn rollup(v: Seq<Rollup>, k: Key) -> Option<Rollup> {
    match rollup_at(v, k) {
        Some(i) => Some(v[i]),
        None => None,
    }
}

proof fn lemma_rollup_at(v: Seq<Rollup>, k: Key)
    ensures
        match rollup_at(v, k) {
            Some(i) => 0 <= i < v.len() && store::rollup_key(v[i]) == k,
            None => forall|j: int| 0 <= j < v.len() ==> store::rollup_key(#[trigger] v[j]) != k,
        },
    decreases v.len(),
{
    if v.len() > 0 && store::rollup_key(v.last()) != k {
        let d = v.drop_last();
        lemma_rollup_at(d, k);
        assert forall|j: int| 0 <= j < d.len() implies d[j] == #[trigger] v[j] by {}
    }
}

proof fn lemma_rollup_unique(v: Seq<Rollup>, i: int)
    requires
        store::series_differ(v),
        0 <= i < v.len(),
    ensures
        rollup_at(v, store::rollup_key(v[i])) == Some(i),
{
    let k = store::rollup_key(v[i]);
    lemma_rollup_at(v, k);
    let j = rollup_at(v, k)->0;
    if i < j {
        assert(store::rollup_key(v[i]) != store::rollup_key(v[j]));
    } else if j < i {
        assert(store::rollup_key(v[j]) != store::rollup_key(v[i]));
    }
}

/// Storing a rollup puts it under its key and touches no other key.
proof fn lemma_upsert(v: Seq<Rollup>, w: Seq<Rollup>, r: Rollup)
    requires
        store::series_differ(v),
        match rollup_at(v, store::rollup_key(r)) {
            Some(i) => w == v.update(i, r),
            None => w == v.push(r),
        },
    ensures
        store::series_differ(w),
        forall|k: Key| #[trigger]
            rollup(w, k) == (if k == store::rollup_key(r) {
                Some(r)
            } else {
                rollup(v, k)
            }),
{
    let key = store::rollup_key(r);
    lemma_rollup_at(v, key);
    assert forall|i: int, j: int| 0 <= i < j < w.len() implies store::rollup_key(#[trigger] w[i])
        != store::rollup_key(#[trigger] w[j]) by {
        if i < v.len() && j < v.len() {
            assert(store::rollup_key(v[i]) != store::rollup_key(v[j]));
            assert(store::rollup_key(w[i]) == store::rollup_key(v[i]));
            assert(store::rollup_key(w[j]) == store::rollup_key(v[j]));
        } else {
            assert(w[i] == v[i]);
        }
    }
    assert forall|k: Key| #[trigger] rollup(w, k) == (if k == key {
        Some(r)
    } else {
        rollup(v, k)
    }) by {
        lemma_rollup_at(v, k);
        lemma_rollup_at(w, k);
        if k == key {
            match rollup_at(v, key) {
                Some(i) => {
                    lemma_rollup_unique(w, i);
                },
                None => {
                    lemma_rollup_unique(w, w.len() - 1);
                },
            }
        } else {
            match rollup_at(v, k) {
                Some(i) => {
                    assert(w[i] == v[i]);
                    lemma_rollup_unique(w, i);
                },
                None => {
                    if rollup_at(w, k) is Some {
                        let j = rollup_at(w, k)->0;
                        if j < v.len() {
                            assert(store::rollup_key(w[j]) == store::rollup_key(v[j]));
                        }
                    }
                },
            }
        }
    }
}

// ---------------------------------------------------------------------------
// Rolling up
// ---------------------------------------------------------------------------

/// The starts of the closed buckets that hold a value.
pub open spec fn closed_starts(
    v: Seq<ConnectivitySample>,
    m: Metric,
    b: Bucket,
    now: i64,
) -> Seq<i64>
    decreases v.len(),
{
    if v.len() == 0 {
        Seq::empty()
    } else if v.last().ts < bucket_start(now, b) && summary::metric_value(v.last(), m) is Some {
        closed_starts(v.drop_last(), m, b, now).push(bucket_start(v.last().ts, b))
    } else {
        closed_starts(v.drop_last(), m, b, now)
    }
}

/// A stored rollup stays if pruning took samples that it sums up and fewer are
/// left.
pub open spec fn stays(
    old_rows: Seq<Rollup>,
    v: Seq<ConnectivitySample>,
    m: Metric,
    b: Bucket,
    start: i64,
    now: i64,
) -> bool {
    match rollup(old_rows, (m, 0i64, b, start)) {
        Some(r) => r.pruned && bucket_values(v, m, b, start, now).len() < r.count,
        None => false,
    }
}

/// The starts of the closed buckets that a run rolls up.
pub open spec fn starts_written(
    old_rows: Seq<Rollup>,
    v: Seq<ConnectivitySample>,
    m: Metric,
    b: Bucket,
    now: i64,
) -> Set<i64> {
    closed_starts(v, m, b, now).to_set().filter(
        |start: i64| !stays(old_rows, v, m, b, start, now),
    )
}

/// How many buckets are rolled up: one for each start.
pub open spec fn buckets_written(
    old_rows: Seq<Rollup>,
    v: Seq<ConnectivitySample>,
    m: Metric,
    b: Bucket,
    now: i64,
) -> nat {
    starts_written(old_rows, v, m, b, now).len()
}

/// The rollup under a key once a metric was rolled up into a bucket size: every
/// closed bucket that has samples is summed up anew, unless its rollup stays.
pub open spec fn after_metric(
    old_rows: Seq<Rollup>,
    v: Seq<ConnectivitySample>,
    m: Metric,
    b: Bucket,
    now: i64,
    k: Key,
) -> Option<Rollup> {
    if k.0 == m && k.1 == 0 && k.2 == b && bucket_values(v, m, b, k.3, now).len() > 0
        && !stays(old_rows, v, m, b, k.3, now) {
        Some(rollup_of(m, b, k.3, bucket_values(v, m, b, k.3, now)))
    } else {
        rollup(old_rows, k)
    }
}

proof fn lemma_starts_have_values(
    v: Seq<ConnectivitySample>,
    m: Metric,
    b: Bucket,
    now: i64,
    start: i64,
)
    ensures
        closed_starts(v, m, b, now).contains(start) <==> bucket_values(v, m, b, start, now).len()
            > 0,
    decreases v.len(),
{
    if v.len() > 0 {
        let d = v.drop_last();
        lemma_starts_have_values(d, m, b, now, start);
        let x = closed_starts(d, m, b, now);
        let y = closed_starts(v, m, b, now);
        if x.contains(start) {
            let i = choose|i: int| 0 <= i < x.len() && x[i] == start;
            assert(y[i] == start);
        }
        if y.contains(start) {
            let i = choose|i: int| 0 <= i < y.len() && y[i] == start;
            if i < x.len() {
                assert(x[i] == start);
            }
        }
        if counts_for(v.last(), m, b, start, now) {
            assert(y[y.len() - 1] == start);
        }
    }
}

fn values_in_bucket(
    v: &Vec<ConnectivitySample>,
    m: Metric,
    b: Bucket,
    start: i64,
    now: i64,
) -> (r: Vec<u64>)
    ensures
        r@ == bucket_values(v@, m, b, start, now),
{
    let current: i64 = bucket_of(now, b);
    let mut out: Vec<u64> = Vec::new();
    let mut i: usize = 0;
    while i < v.len()
        invariant
            i <= v.len(),
            current == bucket_start(now, b),
            out@ == bucket_values(v@.take(i as int), m, b, start, now),
        decreases v.len() - i,
    {
        assert(v@.take(i + 1).drop_last() == v@.take(i as int));
        let s = &v[i];
        if s.ts < current && bucket_of(s.ts, b) == start {
            if let Some(x) = summary::metric_of(s, m) {
                out.push(x);
            }
        }
        i += 1;
    }
    assert(v@.take(v@.len() as int) == v@);
    out
}

fn make_rollup(m: Metric, b: Bucket, start: i64, vals: &Vec<u64>) -> (r: Rollup)
    requires
        vals@.len() > 0,
    ensures
        r == rollup_of(m, b, start, vals@),
        r.count == vals@.len(),
{
    let s = order::sort(vals);
    proof {
        order::law_sorted(vals@);
        assert forall|i: int| 0 <= i < vals@.len() implies 0 <= #[trigger] vals@[i] <= u64::MAX by {}
        stats::lemma_mean_between(vals@, 0, u64::MAX);
    }
    let sum: u128 = stats::sum(vals);
    Rollup {
        metric: m,
        target_id: 0,
        bucket: b,
        bucket_ts: start,
        count: vals.len() as u64,
        min: s[0],
        avg: (sum / vals.len() as u128) as u64,
        max: s[s.len() - 1],
        p50: order::percentile(&s, 50),
        p95: order::percentile(&s, 95),
        sum,
        pruned: false,
    }
}

fn same_key(r: &Rollup, k: &Rollup) -> (out: bool)
    ensures
        out == (store::rollup_key(*r) == store::rollup_key(*k)),
{
    r.metric == k.metric && r.target_id == k.target_id && r.bucket == k.bucket && r.bucket_ts
        == k.bucket_ts
}

impl Store {
    fn rollup_with_key(&self, k: &Rollup) -> (r: Option<Rollup>)
        ensures
            r == rollup(self.rollups@, store::rollup_key(*k)),
    {
        let ghost key = store::rollup_key(*k);
        let mut i: usize = self.rollups.len();
        assert(self.rollups@.take(i as int) == self.rollups@);
        while i > 0
            invariant
                i <= self.rollups.len(),
                key == store::rollup_key(*k),
                rollup_at(self.rollups@, key) == rollup_at(self.rollups@.take(i as int), key),
            decreases i,
        {
            assert(self.rollups@.take(i as int).drop_last() == self.rollups@.take(i - 1));
            if same_key(&self.rollups[i - 1], k) {
                return Some(self.rollups[i - 1]);
            }
            i -= 1;
        }
        None
    }

    fn upsert_rollup(&mut self, r: Rollup)
        requires
            old(self).wf(),
        ensures
            final(self).wf(),
            forall|k: Key| #[trigger]
                rollup(final(self).rollups@, k) == (if k == store::rollup_key(r) {
                    Some(r)
                } else {
                    rollup(old(self).rollups@, k)
                }),
            *final(self) == (Store { rollups: final(self).rollups, ..*old(self) }),
    {
        let ghost before = self.rollups@;
        let ghost key = store::rollup_key(r);
        let mut i: usize = self.rollups.len();
        assert(before.take(i as int) == before);
        while i > 0
            invariant
                i <= self.rollups.len(),
                *self == *old(self),
                self.wf(),
                self.rollups@ == before,
                key == store::rollup_key(r),
                rollup_at(before, key) == rollup_at(before.take(i as int), key),
            decreases i,
        {
            assert(before.take(i as int).drop_last() == before.take(i - 1));
            if same_key(&self.rollups[i - 1], &r) {
                self.rollups[i - 1] = r;
                proof {
                    assert(self.rollups@ == before.update(i - 1, r));
                    lemma_upsert(before, self.rollups@, r);
                }
                return;
            }
            i -= 1;
        }
        self.rollups.push(r);
        proof {
            lemma_upsert(before, self.rollups@, r);
        }
    }

    /// Rolls one metric up into the closed buckets of one size, over all
    /// targets, and returns how many rollups were written.
    pub fn rollup_metric(&mut self, m: Metric, b: Bucket, now: i64) -> (r: u64)
        requires
            old(self).wf(),
        ensures
            final(self).wf(),
            r == buckets_written(old(self).rollups@, old(self).connectivity@, m, b, now),
            r <= old(self).connectivity@.len(),
            forall|k: Key| #[trigger]
                rollup(final(self).rollups@, k) == after_metric(
                    old(self).rollups@,
                    old(self).connectivity@,
                    m,
                    b,
                    now,
                    k,
                ),
            *final(self) == (Store { rollups: final(self).rollups, ..*old(self) }),
    {
        let ghost start_rows = self.rollups@;
        let ghost v = self.connectivity@;
        let current: i64 = bucket_of(now, b);
        let mut seen: HashSet<i64> = HashSet::new();
        let mut written: HashSet<i64> = HashSet::new();
        let ghost fresh = |start: i64| !stays(start_rows, v, m, b, start, now);
        let mut i: usize = 0;
        assert(seen@ =~= closed_starts(v.take(0), m, b, now).to_set()) by {
            assert(closed_starts(v.take(0), m, b, now) == Seq::<i64>::empty());
        }
        assert(written@ =~= seen@.filter(fresh));
        while i < self.connectivity.len()
            invariant
                i <= self.connectivity.len(),
                self.wf(),
                current == bucket_start(now, b),
                v == self.connectivity@,
                *self == (Store { rollups: self.rollups, ..*old(self) }),
                start_rows == old(self).rollups@,
                seen@ == closed_starts(v.take(i as int), m, b, now).to_set(),
                fresh == (|start: i64| !stays(start_rows, v, m, b, start, now)),
                written@ == seen@.filter(fresh),
                forall|k: Key| #[trigger]
                    rollup(self.rollups@, k) == (if k.0 == m && k.1 == 0 && k.2 == b
                        && written@.contains(k.3) {
                        Some(rollup_of(m, b, k.3, bucket_values(v, m, b, k.3, now)))
                    } else {
                        rollup(start_rows, k)
                    }),
            decreases self.connectivity.len() - i,
        {
            let ghost before = v.take(i as int);
            assert(v.take(i + 1).drop_last() == before);
            let s = self.connectivity[i];
            if s.ts < current && summary::metric_of(&s, m).is_some() {
                let start: i64 = bucket_of(s.ts, b);
                proof {
                    summary::lemma_push_to_set(closed_starts(before, m, b, now), start);
                }
                if !seen.contains(&start) {
                    let vals = values_in_bucket(&self.connectivity, m, b, start, now);
                    proof {
                        let c = closed_starts(v.take(i + 1), m, b, now);
                        assert(c[c.len() - 1] == start);
                        lemma_starts_grow(v, i + 1, m, b, now, start);
                        lemma_starts_have_values(v, m, b, now, start);
                    }
                    let ghost was = seen@;
                    let r = make_rollup(m, b, start, &vals);
                    assert(store::rollup_key(r) == (m, 0i64, b, start));
                    let keep = match self.rollup_with_key(&r) {
                        Some(old) => old.pruned && r.count < old.count,
                        None => false,
                    };
                    assert(!written@.contains(start));
                    assert(rollup(self.rollups@, (m, 0i64, b, start)) == rollup(
                        start_rows,
                        (m, 0i64, b, start),
                    ));
                    assert(keep == !fresh(start));
                    if !keep {
                        self.upsert_rollup(r);
                        written.insert(start);
                        assert(written@ =~= was.insert(start).filter(fresh));
                    } else {
                        assert(written@ =~= was.insert(start).filter(fresh));
                    }
                } else {
                    assert(seen@.insert(start) =~= seen@);
                }
                seen.insert(start);
            }
            i += 1;
        }
        proof {
            assert(v.take(v.len() as int) == v);
            assert forall|k: Key| #[trigger] rollup(self.rollups@, k) == after_metric(
                start_rows,
                v,
                m,
                b,
                now,
                k,
            ) by {
                lemma_starts_have_values(v, m, b, now, k.3);
            }
            closed_starts(v, m, b, now).lemma_cardinality_of_set();
            lemma_starts_len(v, m, b, now);
            vstd::set_lib::lemma_len_subset(written@, seen@);
        }
        written.len() as u64
    }
}

proof fn lemma_starts_len(v: Seq<ConnectivitySample>, m: Metric, b: Bucket, now: i64)
    ensures
        closed_starts(v, m, b, now).len() <= v.len(),
    decreases v.len(),
{
    if v.len() > 0 {
        lemma_starts_len(v.drop_last(), m, b, now);
    }
}

proof fn lemma_starts_grow(
    v: Seq<ConnectivitySample>,
    i: int,
    m: Metric,
    b: Bucket,
    now: i64,
    start: i64,
)
    requires
        0 <= i <= v.len(),
        closed_starts(v.take(i), m, b, now).contains(start),
    ensures
        closed_starts(v, m, b, now).contains(start),
    decreases v.len() - i,
{
    if i < v.len() {
        assert(v.take(i + 1).drop_last() == v.take(i));
        let x = closed_starts(v.take(i), m, b, now);
        let y = closed_starts(v.take(i + 1), m, b, now);
        let k = choose|k: int| 0 <= k < x.len() && x[k] == start;
        assert(y[k] == start);
        lemma_starts_grow(v, i + 1, m, b, now, start);
    } else {
        assert(v.take(i) == v);
    }
}

// ---------------------------------------------------------------------------
// Retention
// ---------------------------------------------------------------------------

/// How many days raw samples are kept: the setting, or seven.
pub open spec fn retention_days(setting: Option<Seq<char>>) -> int {
    match setting {
        Some(s) => match crate::number::parse_i64(text::trim(s)) {
            Some(n) => n as int,
            None => 7,
        },
        None => 7,
    }
}

/// Samples before this time are pruned. It is aligned to the hour.
pub open spec fn cutoff(now: i64, days: int) -> int {
    span_start(now - days * 86_400_000, 3_600_000)
}

/// The rollup sums this sample up, or would if its bucket were over.
pub open spec fn is_summed(s: ConnectivitySample, r: Rollup) -> bool {
    r.target_id == 0 && bucket_start(s.ts, r.bucket) == r.bucket_ts && summary::metric_value(
        s,
        r.metric,
    ) is Some
}

/// Pruning takes a sample of the rollup's bucket.
pub open spec fn is_cut(r: Rollup, v: Seq<ConnectivitySample>, before: int) -> bool {
    exists|i: int| 0 <= i < v.len() && (#[trigger] v[i]).ts < before && is_summed(v[i], r)
}

/// A rollup as pruning leaves it.
pub open spec fn marked(r: Rollup, v: Seq<ConnectivitySample>, before: int) -> Rollup {
    Rollup { pruned: r.pruned || is_cut(r, v, before), ..r }
}

pub open spec fn all_marked(rows: Seq<Rollup>, v: Seq<ConnectivitySample>, before: int) -> Seq<
    Rollup,
> {
    rows.map_values(|r: Rollup| marked(r, v, before))
}

/// The rollup under a key after a maintenance run.
pub open spec fn after_run(
    old_rows: Seq<Rollup>,
    v: Seq<ConnectivitySample>,
    now: i64,
    days: int,
    k: Key,
) -> Option<Rollup> {
    match after_metric(old_rows, v, k.0, k.2, now, k) {
        Some(r) => Some(marked(r, v, cutoff(now, days))),
        None => None,
    }
}

proof fn lemma_all_marked(rows: Seq<Rollup>, v: Seq<ConnectivitySample>, before: int, k: Key)
    ensures
        rollup_at(all_marked(rows, v, before), k) == rollup_at(rows, k),
        rollup(all_marked(rows, v, before), k) == (match rollup(rows, k) {
            Some(r) => Some(marked(r, v, before)),
            None => None,
        }),
    decreases rows.len(),
{
    lemma_rollup_at(rows, k);
    let w = all_marked(rows, v, before);
    if rows.len() > 0 {
        assert(w.drop_last() == all_marked(rows.drop_last(), v, before));
        lemma_all_marked(rows.drop_last(), v, before, k);
    }
}

fn cuts(r: &Rollup, v: &Vec<ConnectivitySample>, before: i128) -> (out: bool)
    ensures
        out == is_cut(*r, v@, before as int),
{
    let mut i: usize = 0;
    while i < v.len()
        invariant
            i <= v.len(),
            forall|k: int| 0 <= k < i ==> !((#[trigger] v@[k]).ts < before && is_summed(v@[k], *r)),
        decreases v.len() - i,
    {
        let s = &v[i];
        if (s.ts as i128) < before && r.target_id == 0 && bucket_of(s.ts, r.bucket) == r.bucket_ts
            && summary::metric_of(s, r.metric).is_some() {
            assert(v@[i as int].ts < before && is_summed(v@[i as int], *r));
            return true;
        }
        i += 1;
    }
    false
}

/// The samples that pruning keeps.
pub open spec fn kept(v: Seq<ConnectivitySample>, before: int) -> Seq<ConnectivitySample> {
    v.filter(|s: ConnectivitySample| s.ts >= before)
}

impl Store {
    /// Deletes the samples before a time, notes in the rollups that sum them up
    /// that they are gone, and returns how many there were.
    pub fn prune_connectivity_before(&mut self, before: i128) -> (r: u64)
        requires
            old(self).wf(),
        ensures
            final(self).wf(),
            final(self).connectivity@ == kept(old(self).connectivity@, before as int),
            final(self).rollups@ == all_marked(
                old(self).rollups@,
                old(self).connectivity@,
                before as int,
            ),
            r == old(self).connectivity@.len() - final(self).connectivity@.len(),
            *final(self) == (Store {
                connectivity: final(self).connectivity,
                rollups: final(self).rollups,
                ..*old(self)
            }),
    {
        let ghost rows = self.rollups@;
        let ghost want = all_marked(rows, self.connectivity@, before as int);
        let ghost whole = *self;
        let mut j: usize = 0;
        while j < self.rollups.len()
            invariant
                j <= self.rollups.len(),
                *self == (Store { rollups: self.rollups, ..whole }),
                want == all_marked(rows, self.connectivity@, before as int),
                self.rollups@.len() == rows.len(),
                forall|k: int| 0 <= k < j ==> self.rollups@[k] == want[k],
                forall|k: int| j <= k < rows.len() ==> self.rollups@[k] == rows[k],
            decreases self.rollups.len() - j,
        {
            assert(self.rollups@[j as int] == rows[j as int]);
            let r = self.rollups[j];
            let cut = cuts(&r, &self.connectivity, before);
            self.rollups[j] = Rollup { pruned: r.pruned || cut, ..r };
            j += 1;
        }
        proof {
            assert(self.rollups@ == want);
            assert forall|a: int, b: int| 0 <= a < b < want.len() implies store::rollup_key(
                #[trigger] want[a],
            ) != store::rollup_key(#[trigger] want[b]) by {
                assert(store::rollup_key(rows[a]) != store::rollup_key(rows[b]));
            }
        }
        let ghost pred = |s: ConnectivitySample| s.ts >= before as int;
        let ghost v = self.connectivity@;
        let mut out: Vec<ConnectivitySample> = Vec::new();
        let mut i: usize = 0;
        assert(out@ == v.take(0).filter(pred)) by {
            reveal(Seq::filter);
        }
        while i < self.connectivity.len()
            invariant
                i <= self.connectivity.len(),
                v == self.connectivity@,
                pred == (|s: ConnectivitySample| s.ts >= before as int),
                out@ == v.take(i as int).filter(pred),
                out@.len() <= i,
            decreases self.connectivity.len() - i,
        {
            proof {
                reveal(Seq::filter);
                assert(v.take(i + 1).drop_last() == v.take(i as int));
            }
            if self.connectivity[i].ts as i128 >= before {
                out.push(self.connectivity[i]);
            }
            i += 1;
        }
        assert(v.take(v.len() as int) == v);
        let gone: u64 = (self.connectivity.len() - out.len()) as u64;
        proof {
            store::lemma_filter_samples(v, pred);
            assert forall|k: int| 0 <= k < out@.len() implies store::target_ids(
                self.targets@,
            ).contains((#[trigger] out@[k]).target_id) by {
                assert(pred(v.filter(pred)[k]));
                let j = choose|j: int| 0 <= j < v.len() && v[j] == out@[k];
                assert(store::target_ids(self.targets@).contains(v[j].target_id));
            }
        }
        self.connectivity = out;
        gone
    }

    /// Rolls latency, loss and jitter up into hours and days, then prunes the
    /// samples that are older than the retention. Returns how many rollups were
    /// written. Buckets whose samples were pruned, all of them or some, are left
    /// as they are; every other closed bucket that has samples is summed up anew.
    pub fn maintain(&mut self, now: i64) -> (r: u128)
        requires
            old(self).wf(),
        ensures
            final(self).wf(),
            r == total_written(old(self).rollups@, old(self).connectivity@, now),
            forall|k: Key| #[trigger]
                rollup(final(self).rollups@, k) == after_run(
                    old(self).rollups@,
                    old(self).connectivity@,
                    now,
                    retention_days(tables::setting(old(self).settings@, "retention.raw_days"@)),
                    k,
                ),
            final(self).connectivity@ == kept(
                old(self).connectivity@,
                cutoff(
                    now,
                    retention_days(tables::setting(old(self).settings@, "retention.raw_days"@)),
                ),
            ),
            *final(self) == (Store {
                rollups: final(self).rollups,
                connectivity: final(self).connectivity,
                ..*old(self)
            }),
    {
        let ghost v = self.connectivity@;
        let ghost r0 = self.rollups@;
        let a: u64 = self.rollup_metric(Metric::Latency, Bucket::Hour, now);
        let ghost r1 = self.rollups@;
        proof {
            lemma_turn(r0, r0, r1, v, Metric::Latency, Bucket::Hour, now);
        }
        let b: u64 = self.rollup_metric(Metric::Latency, Bucket::Day, now);
        let ghost r2 = self.rollups@;
        proof {
            lemma_turn(r0, r1, r2, v, Metric::Latency, Bucket::Day, now);
        }
        let c: u64 = self.rollup_metric(Metric::Loss, Bucket::Hour, now);
        let ghost r3 = self.rollups@;
        proof {
            lemma_turn(r0, r2, r3, v, Metric::Loss, Bucket::Hour, now);
        }
        let d: u64 = self.rollup_metric(Metric::Loss, Bucket::Day, now);
        let ghost r4 = self.rollups@;
        proof {
            lemma_turn(r0, r3, r4, v, Metric::Loss, Bucket::Day, now);
        }
        let e: u64 = self.rollup_metric(Metric::Jitter, Bucket::Hour, now);
        let ghost r5 = self.rollups@;
        proof {
            lemma_turn(r0, r4, r5, v, Metric::Jitter, Bucket::Hour, now);
        }
        let f: u64 = self.rollup_metric(Metric::Jitter, Bucket::Day, now);
        let ghost r6 = self.rollups@;
        proof {
            lemma_turn(r0, r5, r6, v, Metric::Jitter, Bucket::Day, now);
        }
        let written: u128 = a as u128 + b as u128 + c as u128 + d as u128 + e as u128 + f as u128;
        let days: i64 = match self.get_setting_i64("retention.raw_days") {
            Some(n) => n,
            None => 7,
        };
        let from: i128 = now as i128 - days as i128 * 86_400_000;
        let before: i128 = start_of(from, 3_600_000);
        let _ = self.prune_connectivity_before(before);
        proof {
            assert forall|k: Key| #[trigger] rollup(self.rollups@, k) == after_run(
                r0,
                v,
                now,
                retention_days(tables::setting(old(self).settings@, "retention.raw_days"@)),
                k,
            ) by {
                lemma_all_marked(r6, v, before as int, k);
                assert(rollup(r6, k) == after_metric(r0, v, k.0, k.2, now, k));
            }
        }
        written
    }
}

/// Which turn of a maintenance run rolls a metric up into a bucket size.
spec fn turn(m: Metric, b: Bucket) -> int {
    (match m {
        Metric::Latency => 0int,
        Metric::Loss => 2,
        Metric::Jitter => 4,
    }) + (match b {
        Bucket::Hour => 0int,
        Bucket::Day => 1,
    })
}

/// The rollups after the first `n` turns.
spec fn has_turned(
    old_rows: Seq<Rollup>,
    new_rows: Seq<Rollup>,
    v: Seq<ConnectivitySample>,
    now: i64,
    n: int,
) -> bool {
    forall|k: Key| #[trigger]
        rollup(new_rows, k) == (if turn(k.0, k.2) < n {
            after_metric(old_rows, v, k.0, k.2, now, k)
        } else {
            rollup(old_rows, k)
        })
}

/// The turns do not touch each other's rollups.
proof fn lemma_turn(
    r0: Seq<Rollup>,
    before: Seq<Rollup>,
    after: Seq<Rollup>,
    v: Seq<ConnectivitySample>,
    m: Metric,
    b: Bucket,
    now: i64,
)
    requires
        turn(m, b) == 0 ==> before == r0,
        turn(m, b) > 0 ==> has_turned(r0, before, v, now, turn(m, b)),
        forall|k: Key| #[trigger] rollup(after, k) == after_metric(before, v, m, b, now, k),
    ensures
        has_turned(r0, after, v, now, turn(m, b) + 1),
        buckets_written(before, v, m, b, now) == buckets_written(r0, v, m, b, now),
{
    assert forall|start: i64| stays(before, v, m, b, start, now) == stays(r0, v, m, b, start, now) by {
        assert(rollup(before, (m, 0i64, b, start)) == rollup(r0, (m, 0i64, b, start)));
    }
    assert(starts_written(before, v, m, b, now) =~= starts_written(r0, v, m, b, now));
    assert forall|k: Key| #[trigger] rollup(after, k) == (if turn(k.0, k.2) < turn(m, b) + 1 {
        after_metric(r0, v, k.0, k.2, now, k)
    } else {
        rollup(r0, k)
    }) by {
        assert(rollup(before, k) == (if turn(k.0, k.2) < turn(m, b) {
            after_metric(r0, v, k.0, k.2, now, k)
        } else {
            rollup(r0, k)
        }));
        if k.0 == m && k.2 == b {
            assert(stays(before, v, m, b, k.3, now) == stays(r0, v, m, b, k.3, now));
        } else {
            assert(turn(k.0, k.2) != turn(m, b));
        }
    }
}

/// How many rollups a maintenance run writes.
pub open spec fn total_written(old_rows: Seq<Rollup>, v: Seq<ConnectivitySample>, now: i64) -> nat {
    buckets_written(old_rows, v, Metric::Latency, Bucket::Hour, now) + buckets_written(
        old_rows,
        v,
        Metric::Latency,
        Bucket::Day,
        now,
    ) + buckets_written(old_rows, v, Metric::Loss, Bucket::Hour, now) + buckets_written(
        old_rows,
        v,
        Metric::Loss,
        Bucket::Day,
        now,
    ) + buckets_written(old_rows, v, Metric::Jitter, Bucket::Hour, now) + buckets_written(
        old_rows,
        v,
        Metric::Jitter,
        Bucket::Day,
        now,
    )
}

/// Pruning never splits an hour: of the samples of one hour, all are kept or
/// none is.
pub proof fn law_pruning_keeps_hours_whole(
    a: ConnectivitySample,
    b: ConnectivitySample,
    now: i64,
    days: int,
)
    requires
        a.ts >= 0,
        b.ts >= 0,
        bucket_start(a.ts, Bucket::Hour) == bucket_start(b.ts, Bucket::Hour),
    ensures
        a.ts >= cutoff(now, days) <==> b.ts >= cutoff(now, days),
{
    let t = now - days * 86_400_000;
    let h = 3_600_000int;
    let (x, y) = (a.ts as int, b.ts as int);
    let n = if t >= 0 {
        t / h
    } else {
        -((-t) / h)
    };
    vstd::arithmetic::div_mod::lemma_fundamental_div_mod(t, h);
    vstd::arithmetic::div_mod::lemma_fundamental_div_mod(-t, h);
    vstd::arithmetic::div_mod::lemma_fundamental_div_mod(x, h);
    vstd::arithmetic::div_mod::lemma_fundamental_div_mod(y, h);
    assert(cutoff(now, days) == h * n);
    assert(x / h == y / h);
}

/// The retention outlasts a bucket: one of a day or more does a day, and any does
/// an hour, since pruning stops at the hour.
pub open spec fn outlasts(days: int, b: Bucket) -> bool {
    match b {
        Bucket::Hour => days >= 0,
        Bucket::Day => days >= 1,
    }
}

/// What a run prunes it has rolled up: the bucket of a pruned sample is over, of
/// either size, so the sample counted for it in that very run.
pub proof fn law_pruned_samples_were_rolled_up(
    s: ConnectivitySample,
    m: Metric,
    b: Bucket,
    now: i64,
    days: int,
)
    requires
        s.ts >= 0,
        outlasts(days, b),
        s.ts < cutoff(now, days),
        summary::metric_value(s, m) is Some,
    ensures
        counts_for(s, m, b, bucket_start(s.ts, b), now),
{
    let t = now - days * 86_400_000;
    let n = now as int;
    assert(t >= 0);
    assert(t - t % 3_600_000 <= t);
    match b {
        Bucket::Hour => {
            assert(t - t % 3_600_000 <= n - n % 3_600_000);
        },
        Bucket::Day => {
            assert(t <= n - 86_400_000);
            assert(n - n % 86_400_000 > n - 86_400_000);
        },
    }
}

/// A rollup whose samples were pruned is never replaced by one over fewer samples.
pub proof fn law_pruned_rollups_never_shrink(
    old_rows: Seq<Rollup>,
    v: Seq<ConnectivitySample>,
    now: i64,
    k: Key,
)
    requires
        rollup(old_rows, k) is Some,
        rollup(old_rows, k)->0.pruned,
        v.len() <= u64::MAX,
    ensures
        after_metric(old_rows, v, k.0, k.2, now, k) is Some,
        after_metric(old_rows, v, k.0, k.2, now, k)->0.count >= rollup(old_rows, k)->0.count,
{
    lemma_values_len(v, k.0, k.2, k.3, now);
}

proof fn lemma_values_len(
    v: Seq<ConnectivitySample>,
    m: Metric,
    b: Bucket,
    start: i64,
    now: i64,
)
    ensures
        bucket_values(v, m, b, start, now).len() <= v.len(),
    decreases v.len(),
{
    if v.len() > 0 {
        lemma_values_len(v.drop_last(), m, b, start, now);
    }
}

/// A rollup that no pruning has touched is summed up anew from whatever samples
/// its bucket has, however few: those of a deleted target are gone from it.
pub proof fn law_whole_buckets_are_summed_up_anew(
    old_rows: Seq<Rollup>,
    v: Seq<ConnectivitySample>,
    m: Metric,
    b: Bucket,
    start: i64,
    now: i64,
)
    requires
        rollup(old_rows, (m, 0i64, b, start)) matches Some(r) ==> !r.pruned,
        bucket_values(v, m, b, start, now).len() > 0,
    ensures
        after_metric(old_rows, v, m, b, now, (m, 0i64, b, start)) == Some(
            rollup_of(m, b, start, bucket_values(v, m, b, start, now)),
        ),
{
}

/// Pruning leaves a bucket all its values, or fewer of them exactly if a sample
/// that counted for it is gone.
proof fn lemma_kept_values(
    v: Seq<ConnectivitySample>,
    m: Metric,
    b: Bucket,
    start: i64,
    later: i64,
    c: int,
)
    ensures
        ({
            let after = bucket_values(kept(v, c), m, b, start, later);
            let whole = bucket_values(v, m, b, start, later);
            if exists|j: int|
                0 <= j < v.len() && counts_for(#[trigger] v[j], m, b, start, later) && v[j].ts < c {
                after.len() < whole.len()
            } else {
                after == whole
            }
        }),
    decreases v.len(),
{
    reveal(Seq::filter);
    if v.len() > 0 {
        let d = v.drop_last();
        lemma_kept_values(d, m, b, start, later, c);
        let x = v.last();
        assert(x == v[v.len() - 1]);
        if x.ts >= c {
            assert(kept(v, c) == kept(d, c).push(x));
            assert(kept(v, c).drop_last() == kept(d, c));
        } else {
            assert(kept(v, c) == kept(d, c));
        }
        if exists|j: int|
            0 <= j < d.len() && counts_for(#[trigger] d[j], m, b, start, later) && d[j].ts < c {
            let j = choose|j: int|
                0 <= j < d.len() && counts_for(#[trigger] d[j], m, b, start, later) && d[j].ts < c;
            assert(v[j] == d[j]);
        } else if exists|j: int|
            0 <= j < v.len() && counts_for(#[trigger] v[j], m, b, start, later) && v[j].ts < c {
            let j = choose|j: int|
                0 <= j < v.len() && counts_for(#[trigger] v[j], m, b, start, later) && v[j].ts < c;
            if j < d.len() {
                assert(d[j] == v[j]);
            }
        }
    }
}

proof fn lemma_closed_values(
    v: Seq<ConnectivitySample>,
    m: Metric,
    b: Bucket,
    start: i64,
    now: i64,
    later: i64,
)
    requires
        since_epoch(v),
        0 <= now <= later,
        start + b.spec_millis() <= bucket_start(now, b),
    ensures
        bucket_values(v, m, b, start, later) == bucket_values(v, m, b, start, now),
    decreases v.len(),
{
    if v.len() > 0 {
        let d = v.drop_last();
        assert forall|i: int| 0 <= i < d.len() implies (#[trigger] d[i]).ts >= 0 by {
            assert(d[i] == v[i]);
        }
        lemma_closed_values(d, m, b, start, now, later);
        let t = v.last().ts as int;
        assert(v.last() == v[v.len() - 1]);
        match b {
            Bucket::Hour => {
                assert(t - t % 3_600_000 == start ==> t < start + 3_600_000);
                assert(now - now as int % 3_600_000 <= later - later as int % 3_600_000);
            },
            Bucket::Day => {
                assert(t - t % 86_400_000 == start ==> t < start + 86_400_000);
                assert(now - now as int % 86_400_000 <= later - later as int % 86_400_000);
            },
        }
    }
}

/// In a bucket that is over, the samples that pruning takes are those that
/// counted for it.
proof fn lemma_cut(
    r: Rollup,
    v: Seq<ConnectivitySample>,
    now: i64,
    later: i64,
    c: int,
)
    requires
        since_epoch(v),
        0 <= now <= later,
        r.target_id == 0,
        r.bucket_ts + r.bucket.spec_millis() <= bucket_start(now, r.bucket),
    ensures
        is_cut(r, v, c) <==> exists|j: int|
            0 <= j < v.len() && counts_for(#[trigger] v[j], r.metric, r.bucket, r.bucket_ts, later)
                && v[j].ts < c,
{
    if is_cut(r, v, c) {
        let i = choose|i: int| 0 <= i < v.len() && (#[trigger] v[i]).ts < c && is_summed(v[i], r);
        let t = v[i].ts as int;
        match r.bucket {
            Bucket::Hour => {
                assert(t < t - t % 3_600_000 + 3_600_000);
                assert(now - now as int % 3_600_000 <= later - later as int % 3_600_000);
            },
            Bucket::Day => {
                assert(t < t - t % 86_400_000 + 86_400_000);
                assert(now - now as int % 86_400_000 <= later - later as int % 86_400_000);
            },
        }
        assert(counts_for(v[i], r.metric, r.bucket, r.bucket_ts, later));
    }
    if exists|j: int|
        0 <= j < v.len() && counts_for(#[trigger] v[j], r.metric, r.bucket, r.bucket_ts, later)
            && v[j].ts < c {
        let j = choose|j: int|
            0 <= j < v.len() && counts_for(#[trigger] v[j], r.metric, r.bucket, r.bucket_ts, later)
                && v[j].ts < c;
        assert(v[j].ts < c && is_summed(v[j], r));
    }
}

/// The figures of a rollup: all of it but the note of pruning.
pub open spec fn figures(r: Option<Rollup>) -> Option<Rollup> {
    match r {
        Some(x) => Some(Rollup { pruned: false, ..x }),
        None => None,
    }
}

/// Once a bucket of either size is over and rolled up, maintenance at any later
/// time changes nothing of its figures as long as no sample is added or taken but
/// by pruning: what it recomputes it recomputes alike, and what was pruned, in
/// whole or in part, it leaves.
pub proof fn law_later_maintenance_keeps_buckets(
    rows0: Seq<Rollup>,
    rows1: Seq<Rollup>,
    rows2: Seq<Rollup>,
    v: Seq<ConnectivitySample>,
    now: i64,
    later: i64,
    days: int,
    later_days: int,
    m: Metric,
    b: Bucket,
    start: i64,
)
    requires
        since_epoch(v),
        v.len() <= u64::MAX,
        0 <= now <= later,
        start + b.spec_millis() <= bucket_start(now, b),
        forall|k: Key| #[trigger] rollup(rows1, k) == after_run(rows0, v, now, days, k),
        forall|k: Key| #[trigger]
            rollup(rows2, k) == after_run(
                rows1,
                kept(v, cutoff(now, days)),
                later,
                later_days,
                k,
            ),
    ensures
        figures(rollup(rows2, (m, 0i64, b, start))) == figures(rollup(rows1, (m, 0i64, b, start))),
{
    let k = (m, 0i64, b, start);
    let c = cutoff(now, days);
    lemma_kept_values(v, m, b, start, later, c);
    lemma_closed_values(v, m, b, start, now, later);
    lemma_values_len(v, m, b, start, now);
    lemma_rollup_at(rows0, k);
    assert(rollup(rows1, k) == after_run(rows0, v, now, days, k));
    if after_metric(rows0, v, m, b, now, k) is Some {
        let r = after_metric(rows0, v, m, b, now, k)->0;
        assert(store::rollup_key(r) == k);
        lemma_cut(r, v, now, later, c);
    }
}

/// No bucket of either size is rolled up in part: while retention outlasts it,
/// what a later run leaves of its figures is what it would leave had nothing been
/// pruned.
pub proof fn law_buckets_are_never_rolled_up_in_part(
    rows0: Seq<Rollup>,
    rows1: Seq<Rollup>,
    v: Seq<ConnectivitySample>,
    now: i64,
    later: i64,
    days: int,
    m: Metric,
    b: Bucket,
    start: i64,
)
    requires
        since_epoch(v),
        v.len() <= u64::MAX,
        0 <= now <= later,
        outlasts(days, b),
        forall|k: Key| #[trigger] rollup(rows1, k) == after_run(rows0, v, now, days, k),
    ensures
        figures(
            after_metric(rows1, kept(v, cutoff(now, days)), m, b, later, (m, 0i64, b, start)),
        ) == figures(after_metric(rows1, v, m, b, later, (m, 0i64, b, start))),
{
    let k = (m, 0i64, b, start);
    let c = cutoff(now, days);
    lemma_kept_values(v, m, b, start, later, c);
    if bucket_values(kept(v, c), m, b, start, later) != bucket_values(v, m, b, start, later) {
        let j = choose|j: int|
            0 <= j < v.len() && counts_for(#[trigger] v[j], m, b, start, later) && v[j].ts < c;
        law_pruned_samples_were_rolled_up(v[j], m, b, now, days);
        lemma_counted_values(v, j, m, b, start, now);
        law_only_closed_buckets(v, m, b, start, now);
        lemma_closed_values(v, m, b, start, now, later);
        lemma_values_len(v, m, b, start, now);
        lemma_rollup_at(rows0, k);
        assert(rollup(rows1, k) == after_run(rows0, v, now, days, k));
        let r = after_metric(rows0, v, m, b, now, k)->0;
        assert(store::rollup_key(r) == k);
        lemma_cut(r, v, now, later, c);
    }
}

proof fn lemma_counted_values(
    v: Seq<ConnectivitySample>,
    j: int,
    m: Metric,
    b: Bucket,
    start: i64,
    now: i64,
)
    requires
        0 <= j < v.len(),
        counts_for(v[j], m, b, start, now),
    ensures
        bucket_values(v, m, b, start, now).len() > 0,
    decreases v.len(),
{
    if j < v.len() - 1 {
        assert(v.drop_last()[j] == v[j]);
        lemma_counted_values(v.drop_last(), j, m, b, start, now);
    }
}

// ---------------------------------------------------------------------------
// Reading rollups
// ---------------------------------------------------------------------------

pub open spec fn is_wanted(r: Rollup, metric: Seq<char>, bucket: Seq<char>, since: i64) -> bool {
    &&& r.metric.spec_label() == metric
    &&& r.bucket.spec_label() == bucket
    &&& r.target_id == 0
    &&& r.bucket_ts >= since
}

/// The wanted rollups, in the order in which they were stored.
pub open spec fn wanted(
    v: Seq<Rollup>,
    metric: Seq<char>,
    bucket: Seq<char>,
    since: i64,
) -> Seq<Rollup> {
    v.filter(|r: Rollup| is_wanted(r, metric, bucket, since))
}

pub open spec fn start_keys(v: Seq<Rollup>) -> Seq<i128> {
    v.map_values(|r: Rollup| r.bucket_ts as i128)
}

/// The wanted rollups, by start.
pub open spec fn series(
    v: Seq<Rollup>,
    metric: Seq<char>,
    bucket: Seq<char>,
    since: i64,
) -> Seq<Rollup> {
    let w = wanted(v, metric, bucket, since);
    order::ascending(start_keys(w), w.len()).map_values(|i: usize| w[i as int])
}

impl Store {
    /// The rollups of a metric over all targets since a time, by start.
    pub fn rollups(&self, metric: &str, bucket: &str, since: i64) -> (r: Vec<Rollup>)
        ensures
            r@ == series(self.rollups@, metric@, bucket@, since),
    {
        let ghost pred = |r: Rollup| is_wanted(r, metric@, bucket@, since);
        let ghost v = self.rollups@;
        let mut w: Vec<Rollup> = Vec::new();
        let mut keys: Vec<i128> = Vec::new();
        let mut i: usize = 0;
        assert(w@ == v.take(0).filter(pred)) by {
            reveal(Seq::filter);
        }
        while i < self.rollups.len()
            invariant
                i <= self.rollups.len(),
                v == self.rollups@,
                pred == (|r: Rollup| is_wanted(r, metric@, bucket@, since)),
                w@ == v.take(i as int).filter(pred),
                keys@ == start_keys(w@),
            decreases self.rollups.len() - i,
        {
            proof {
                reveal(Seq::filter);
                assert(v.take(i + 1).drop_last() == v.take(i as int));
            }
            let row = self.rollups[i];
            if text::same_str(row.metric.label(), metric) && text::same_str(
                row.bucket.label(),
                bucket,
            ) && row.target_id == 0 && row.bucket_ts >= since {
                w.push(row);
                keys.push(row.bucket_ts as i128);
                assert(keys@ == start_keys(w@));
            }
            i += 1;
        }
        assert(v.take(v.len() as int) == v);
        let ord = order::ascending_order(&keys);
        let mut out: Vec<Rollup> = Vec::new();
        let mut k: usize = 0;
        while k < ord.len()
            invariant
                k <= ord.len(),
                w@.len() == keys@.len(),
                forall|i: int| 0 <= i < ord@.len() ==> (#[trigger] ord@[i]) < keys@.len(),
                out@ == ord@.map_values(|i: usize| w@[i as int]).take(k as int),
            decreases ord.len() - k,
        {
            out.push(w[ord[k]]);
            assert(out@ == ord@.map_values(|i: usize| w@[i as int]).take(k + 1));
            k += 1;
        }
        assert(out@ == ord@.map_values(|i: usize| w@[i as int]));
        out
    }
}

/// A bucket begins on a whole hour or day, and every time since the epoch lies in the
/// bucket that is named for it.
pub proof fn law_buckets_hold_their_times(ts: i64)
    ensures
        ts >= 0 ==> {
            let (h, d) = (bucket_start(ts, Bucket::Hour), bucket_start(ts, Bucket::Day));
            &&& h <= ts < h + 3_600_000
            &&& h as int % 3_600_000 == 0
            &&& d <= ts < d + 86_400_000
            &&& d as int % 86_400_000 == 0
            &&& d <= h
        },
{
    if ts >= 0 {
        let t = ts as int;
        vstd::arithmetic::div_mod::lemma_fundamental_div_mod(t, 3_600_000);
        vstd::arithmetic::div_mod::lemma_fundamental_div_mod(t, 86_400_000);
        let (h, d) = (3_600_000 * (t / 3_600_000), 86_400_000 * (t / 86_400_000));
        assert(h % 3_600_000 == 0 && d % 86_400_000 == 0);
        assert(d <= h) by {
            assert(24 * (t / 86_400_000) <= t / 3_600_000);
        }
    }
}

/// What a bucket sums up is taken sample by sample: one that lies in this bucket, if the
/// bucket is over, gives its mean round trip for latency, its loss for loss and its
/// jitter for jitter, if it has one. No other sample gives anything.
pub proof fn law_bucket_takes_its_own_values(
    a: Seq<ConnectivitySample>,
    b: Seq<ConnectivitySample>,
    row: ConnectivitySample,
    m: Metric,
    size: Bucket,
    start: i64,
    now: i64,
)
    ensures
        bucket_values(a + b, m, size, start, now) == bucket_values(a, m, size, start, now)
            + bucket_values(b, m, size, start, now),
        bucket_values(seq![row], m, size, start, now) == (match m {
            Metric::Latency => if row.ts < bucket_start(now, size)
                && bucket_start(row.ts, size) == start
                && row.rtt_avg is Some {
                seq![row.rtt_avg->0]
            } else {
                Seq::empty()
            },
            Metric::Loss => if row.ts < bucket_start(now, size)
                && bucket_start(row.ts, size) == start {
                seq![row.loss_pct]
            } else {
                Seq::empty()
            },
            Metric::Jitter => if row.ts < bucket_start(now, size)
                && bucket_start(row.ts, size) == start
                && row.rtt_jitter is Some {
                seq![row.rtt_jitter->0]
            } else {
                Seq::empty()
            },
        }),
        bucket_values(Seq::<ConnectivitySample>::empty(), m, size, start, now)
            == Seq::<u64>::empty(),
    decreases b.len(),
{
    reveal_with_fuel(bucket_values, 2);
    assert(seq![row].drop_last() == Seq::<ConnectivitySample>::empty());
    if b.len() == 0 {
        assert(a + b == a);
    } else {
        law_bucket_takes_its_own_values(a, b.drop_last(), row, m, size, start, now);
        assert((a + b).drop_last() == a + b.drop_last());
        assert(bucket_values(a + b, m, size, start, now) == bucket_values(a, m, size, start, now)
            + bucket_values(b, m, size, start, now));
    }
}

/// What a rollup says of its values: how many there are, their sum, the mean that
/// shares the sum out evenly, the least and the greatest, and the percentiles of the
/// sorted values.
pub proof fn law_rollup_sums_up_its_values(
    m: Metric,
    b: Bucket,
    start: i64,
    vals: Seq<u64>,
    i: int,
)
    requires
        0 <= i < vals.len() <= u64::MAX,
    ensures
        ({
            let r = rollup_of(m, b, start, vals);
            &&& r.metric == m && r.bucket == b && r.bucket_ts == start && r.target_id == 0
            &&& r.count == vals.len()
            &&& r.sum == stats::total(vals)
            &&& r.avg * r.count <= r.sum < (r.avg + 1) * r.count
            &&& r.min <= vals[i] <= r.max
            &&& vals.contains(r.min) && vals.contains(r.max)
            &&& r.p50 == order::percentile_of(order::sorted(vals), 50)
            &&& r.p95 == order::percentile_of(order::sorted(vals), 95)
            &&& vals.len() % 2 == 1 ==> r.p50 == order::sorted(vals)[vals.len() as int / 2]
            &&& !r.pruned
        }),
{
    let s = order::sorted(vals);
    order::law_sorted(vals);
    assert forall|a: int, c: int| 0 <= a <= c < s.len() implies #[trigger] s[a] <= #[trigger] s[c] by {}
    order::law_percentiles_follow_the_ranks(s, 50);
    stats::law_mean_divides_the_total(vals);
    s.to_multiset_ensures();
    vals.to_multiset_ensures();
    assert forall|x: u64| s.contains(x) <==> vals.contains(x) by {
        assert(s.contains(x) <==> s.to_multiset().count(x) > 0);
        assert(vals.contains(x) <==> vals.to_multiset().count(x) > 0);
    }
    assert(s.contains(s[0]) && s.contains(s[s.len() - 1]));
    assert(vals.contains(vals[i]));
    let k = choose|k: int| 0 <= k < s.len() && s[k] == vals[i];
    assert(s[0] <= s[k] <= s[s.len() - 1]);
    stats::lemma_total_bounds(vals, 0, u64::MAX as nat);
    assert(stats::total(vals) <= u128::MAX) by (nonlinear_arith)
        requires
            stats::total(vals) <= u64::MAX * vals.len(),
            vals.len() <= u64::MAX,
    ;
}

/// Samples are kept for as many days as the setting says, or for seven if it says
/// nothing or no number.
pub proof fn law_retention_is_the_setting(n: i64, s: Seq<char>)
    ensures
        retention_days(None) == 7,
        retention_days(Some(crate::number::dec_int(n as int))) == n,
        crate::number::parse_i64(text::trim(s)) is None ==> retention_days(Some(s)) == 7,
{
    let d = crate::number::dec_int(n as int);
    crate::number::law_integers_round_trip(n);
    crate::display::lemma_number_is_trimmed(n);
}

/// A sample is never pruned while it is younger than the retention, and always once it
/// is an hour older.
pub proof fn law_samples_are_kept_for_the_retention(
    v: Seq<ConnectivitySample>,
    s: ConnectivitySample,
    now: i64,
    days: int,
)
    requires
        now - days * 86_400_000 >= 0,
        v.contains(s),
    ensures
        now - s.ts <= days * 86_400_000 ==> kept(v, cutoff(now, days)).contains(s),
        now - s.ts >= days * 86_400_000 + 3_600_000 ==> !kept(v, cutoff(now, days)).contains(s),
        kept(v, cutoff(now, days)).len() <= v.len(),
{
    let c = cutoff(now, days);
    let t = now - days * 86_400_000;
    vstd::arithmetic::div_mod::lemma_fundamental_div_mod(t, 3_600_000);
    assert(c <= t < c + 3_600_000);
    let pred = |x: ConnectivitySample| x.ts >= c;
    v.filter_lemma(pred);
    assert(kept(v, c) =~= v.filter(pred));
}

/// A maintenance run leaves under every key the rollup of all values that its closed
/// bucket has, unless some of them were pruned before; buckets without values and
/// rollups of single targets are left alone.
pub proof fn law_runs_sum_up_closed_buckets(
    old_rows: Seq<Rollup>,
    v: Seq<ConnectivitySample>,
    now: i64,
    days: int,
    k: Key,
)
    ensures
        ({
            let vals = bucket_values(v, k.0, k.2, k.3, now);
            let after = figures(after_run(old_rows, v, now, days, k));
            &&& k.1 != 0 || vals.len() == 0 ==> after == figures(rollup(old_rows, k))
            &&& k.1 == 0 && vals.len() > 0 && rollup(old_rows, k) is None ==> after == Some(
                rollup_of(k.0, k.2, k.3, vals),
            )
            &&& k.1 == 0 && vals.len() > 0 && rollup(old_rows, k) is Some && (!rollup(
                old_rows,
                k,
            )->0.pruned || vals.len() >= rollup(old_rows, k)->0.count) ==> after == Some(
                rollup_of(k.0, k.2, k.3, vals),
            )
            &&& k.1 == 0 && vals.len() > 0 && rollup(old_rows, k) is Some && rollup(
                old_rows,
                k,
            )->0.pruned && vals.len() < rollup(old_rows, k)->0.count ==> after == figures(
                rollup(old_rows, k),
            )
        }),
{
}

/// A key names the stored rollup of its metric, target, bucket size and start.
pub proof fn law_rollups_are_found_by_key(v: Seq<Rollup>, i: int)
    requires
        store::series_differ(v),
        0 <= i < v.len(),
    ensures
        rollup(v, (v[i].metric, v[i].target_id, v[i].bucket, v[i].bucket_ts)) == Some(v[i]),
{
    lemma_rollup_unique(v, i);
}

/// A run counts the buckets that it writes: the closed ones that hold a value, each
/// once, without those whose rollup stays.
pub proof fn law_written_buckets_are_counted(
    old_rows: Seq<Rollup>,
    v: Seq<ConnectivitySample>,
    m: Metric,
    b: Bucket,
    now: i64,
    start: i64,
)
    ensures
        starts_written(old_rows, v, m, b, now).contains(start) <==> bucket_values(
            v,
            m,
            b,
            start,
            now,
        ).len() > 0 && !(rollup(old_rows, (m, 0i64, b, start)) matches Some(r) && r.pruned
            && bucket_values(v, m, b, start, now).len() < r.count),
        buckets_written(old_rows, v, m, b, now) == starts_written(old_rows, v, m, b, now).len(),
{
    lemma_starts_have_values(v, m, b, now, start);
}

/// A bucket before the epoch ends with its start.
pub proof fn law_buckets_before_the_epoch_end_at_their_start(ts: i64)
    requires
        ts < 0,
    ensures
        bucket_start(ts, Bucket::Hour) - 3_600_000 < ts <= bucket_start(ts, Bucket::Hour) <= 0,
        bucket_start(ts, Bucket::Day) - 86_400_000 < ts <= bucket_start(ts, Bucket::Day) <= 0,
{
}

/// A series lists the rollups over all targets of the named metric and bucket that
/// start in the window, every one of them and no other, by their start.
pub proof fn law_series_lists_the_window(
    v: Seq<Rollup>,
    metric: Seq<char>,
    bucket: Seq<char>,
    since: i64,
    row: Rollup,
    i: int,
    j: int,
)
    requires
        v.len() <= usize::MAX,
    ensures
        series(v, metric, bucket, since).contains(row) <==> {
            &&& v.contains(row)
            &&& row.target_id == 0
            &&& row.bucket_ts >= since
            &&& match row.metric {
                Metric::Latency => metric == "latency"@,
                Metric::Loss => metric == "loss"@,
                Metric::Jitter => metric == "jitter"@,
            }
            &&& match row.bucket {
                Bucket::Hour => bucket == "hour"@,
                Bucket::Day => bucket == "day"@,
            }
        },
        0 <= i < j < series(v, metric, bucket, since).len() ==> series(
            v,
            metric,
            bucket,
            since,
        )[i].bucket_ts <= series(v, metric, bucket, since)[j].bucket_ts,
        series(v, metric, bucket, since).len() <= v.len(),
{
    let pred = |r: Rollup| is_wanted(r, metric, bucket, since);
    let w = wanted(v, metric, bucket, since);
    let ord = order::ascending(start_keys(w), w.len());
    let r = series(v, metric, bucket, since);
    v.lemma_filter_len(pred);
    order::law_ascending_is_the_order(start_keys(w), w.len());
    if r.contains(row) {
        let k = choose|k: int| 0 <= k < r.len() && r[k] == row;
        let n = ord[k] as int;
        assert(w[n] == row);
        v.lemma_filter_pred(pred, n);
        v.lemma_filter_contains_rev(pred, row);
    }
    if v.contains(row) && is_wanted(row, metric, bucket, since) {
        let k = choose|k: int| 0 <= k < v.len() && v[k] == row;
        v.lemma_filter_contains(pred, k);
        assert(w.contains(row));
        let n = choose|n: int| 0 <= n < w.len() && w[n] == row;
        assert(ord.contains(n as usize));
        let m = choose|m: int| 0 <= m < ord.len() && ord[m] == n as usize;
        assert(r[m] == row);
    }
    if 0 <= i < j < r.len() {
        assert(order::before(start_keys(w), ord[i], ord[j]));
    }
}

} // verus!
