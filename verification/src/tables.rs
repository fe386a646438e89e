//! Storing rows and reading the newest ones back.

use vstd::prelude::*;

use crate::number;
use crate::number::Reading;
use crate::order;
use crate::rows;
use crate::rows::{
    own_text, stamps_of, BandwidthNow, BandwidthTotals, ConnectivitySample, Event, GatewaySample,
    InterfaceErrorSample, InterfaceSample, NewConnectivitySample, Outage, Setting, SpeedtestRow,
    Stamped, WifiSample,
};
use crate::store;
use crate::store::{Store, StoreError};
use crate::text;

verus! {

// ---------------------------------------------------------------------------
// Reading tables by time
// ---------------------------------------------------------------------------

/// The rows of a table from the newest on, at most `limit` of them.
pub open spec fn newest_list<T: Stamped>(table: Seq<T>, limit: i64) -> Seq<T> {
    order::newest_first(rows::stamps(table), limit).map_values(|i: usize| table[i as int])
}

/// The rows behind references.
pub open spec fn all_behind<T>(r: Seq<&T>) -> Seq<T> {
    r.map_values(|x: &T| *x)
}

/// `r` lists the newest rows of a table first, at most `limit` of them.
pub open spec fn lists_newest<T: Stamped>(r: Seq<&T>, table: Seq<T>, limit: i64) -> bool {
    all_behind(r) == newest_list(table, limit)
}

pub fn newest_rows<'a, T: Stamped>(rows: &'a Vec<T>, limit: i64) -> (r: Vec<&'a T>)
    ensures
        lists_newest(r@, rows@, limit),
{
    let ord = order::newest(&stamps_of(rows), limit);
    let mut out: Vec<&'a T> = Vec::new();
    let mut k: usize = 0;
    while k < ord.len()
        invariant
            k <= ord.len(),
            out@.len() == k,
            forall|i: int| 0 <= i < ord@.len() ==> (#[trigger] ord@[i]) < rows@.len(),
            forall|i: int| 0 <= i < k ==> *(#[trigger] out@[i]) == rows@[ord@[i] as int],
        decreases ord.len() - k,
    {
        out.push(&rows[ord[k]]);
        k += 1;
    }
    assert(all_behind(out@) == newest_list(rows@, limit));
    out
}

/// A list of the newest rows holds as many as the limit lets through, from the
/// newest down, leaves out no row that is newer than one it holds, and holds
/// every row where the limit lets all through.
pub proof fn law_lists_are_newest_first<T: Stamped>(table: Seq<T>, limit: i64)
    requires
        table.len() <= usize::MAX,
    ensures
        ({
            let list = newest_list(table, limit);
            &&& list.len() == order::limited(limit, table.len())
            &&& forall|i: int, j: int|
                0 <= i < j < list.len()
                    ==> (#[trigger] list[i]).stamp() >= (#[trigger] list[j]).stamp()
            &&& forall|k: int, i: int|
                0 <= k < table.len() && 0 <= i < list.len() && (#[trigger] table[k]).stamp() > (
                #[trigger] list[i]).stamp() ==> list.contains(table[k])
            &&& list.len() == table.len() ==> forall|k: int|
                0 <= k < table.len() ==> list.contains(#[trigger] table[k])
        }),
{
    let n = table.len();
    let keys = rows::stamps(table).map_values(|t: i64| t as i128);
    let ord = order::ascending(keys, n);
    let list = newest_list(table, limit);
    order::law_ascending_is_the_order(keys, n);
    assert forall|i: int| 0 <= i < list.len() implies #[trigger] list[i] == table[ord[n - 1 - i] as int]
        && list[i].stamp() == keys[ord[n - 1 - i] as int] by {}
    assert forall|i: int, j: int| 0 <= i < j < list.len() implies (#[trigger] list[i]).stamp() >= (
    #[trigger] list[j]).stamp() by {
        assert(order::before(keys, ord[n - 1 - j], ord[n - 1 - i]));
    }
    assert forall|k: int, i: int|
        0 <= k < table.len() && 0 <= i < list.len() && (#[trigger] table[k]).stamp() > (
        #[trigger] list[i]).stamp() implies list.contains(table[k]) by {
        assert(ord.contains(k as usize));
        let p = choose|p: int| 0 <= p < ord.len() && ord[p] == k as usize;
        assert(keys[k] == table[k].stamp());
        if p < n - 1 - i {
            assert(order::before(keys, ord[p], ord[n - 1 - i]));
        }
        assert(p > n - 1 - i);
        assert(list[n - 1 - p] == table[k]);
    }
    if list.len() == n {
        assert forall|k: int| 0 <= k < table.len() implies list.contains(#[trigger] table[k]) by {
            assert(ord.contains(k as usize));
            let p = choose|p: int| 0 <= p < ord.len() && ord[p] == k as usize;
            assert(list[n - 1 - p] == table[k]);
        }
    }
}

pub open spec fn all_true(n: nat) -> Seq<bool> {
    Seq::new(n, |i: int| true)
}

/// The newest of the rows that `keep` lets through.
pub open spec fn newest_where<T: Stamped>(table: Seq<T>, keep: Seq<bool>) -> Option<T> {
    match order::newest_kept(rows::stamps(table), keep) {
        Some(i) => Some(table[i]),
        None => None,
    }
}

/// The newest row of a table.
pub open spec fn newest_in<T: Stamped>(table: Seq<T>) -> Option<T> {
    newest_where(table, all_true(table.len()))
}

pub open spec fn behind<T>(r: Option<&T>) -> Option<T> {
    match r {
        Some(x) => Some(*x),
        None => None,
    }
}

/// `r` is the newest of the kept rows.
pub open spec fn is_newest<T: Stamped>(r: Option<&T>, table: Seq<T>, keep: Seq<bool>) -> bool {
    behind(r) == newest_where(table, keep)
}

/// A row that is added behind a table and is not older than any other row is
/// the one that is read back.
pub proof fn law_newest_row_is_read_back<T: Stamped>(table: Seq<T>, row: T)
    requires
        forall|i: int| 0 <= i < table.len() ==> (#[trigger] table[i]).stamp() <= row.stamp(),
    ensures
        newest_in(table.push(row)) == Some(row),
{
    let all = table.push(row);
    let times = rows::stamps(all);
    let keep = all_true(all.len());
    order::law_newest_kept(times, keep);
    assert(keep[table.len() as int]);
    let i = order::newest_kept(times, keep)->0;
    if i < table.len() {
        assert(all[i] == table[i]);
        assert(times[i] <= times[table.len() as int]);
    }
}

pub fn newest_row<'a, T: Stamped>(rows: &'a Vec<T>, keep: &Vec<bool>) -> (r: Option<&'a T>)
    requires
        rows@.len() == keep@.len(),
    ensures
        is_newest(r, rows@, keep@),
{
    match order::newest_of(&stamps_of(rows), keep) {
        Some(i) => Some(&rows[i]),
        None => None,
    }
}

pub fn trues(n: usize) -> (r: Vec<bool>)
    ensures
        r@ == all_true(n as nat),
{
    let mut out: Vec<bool> = Vec::new();
    let mut i: usize = 0;
    while i < n
        invariant
            i <= n,
            out@ == all_true(i as nat),
        decreases n - i,
    {
        out.push(true);
        assert(out@ == all_true((i + 1) as nat));
        i += 1;
    }
    out
}

// ---------------------------------------------------------------------------
// Settings
// ---------------------------------------------------------------------------

/// Where the setting with this key stands.
pub open spec fn setting_at(v: Seq<Setting>, key: Seq<char>) -> Option<int>
    decreases v.len(),
{
    if v.len() == 0 {
        None
    } else if v.last().key@ == key {
        Some(v.len() - 1)
    } else {
        setting_at(v.drop_last(), key)
    }
}

/// The text of the setting with this key.
pub open spec fn setting(v: Seq<Setting>, key: Seq<char>) -> Option<Seq<char>> {
    match setting_at(v, key) {
        Some(i) => Some(v[i].value@),
        None => None,
    }
}

pub proof fn lemma_setting_at(v: Seq<Setting>, key: Seq<char>)
    ensures
        match setting_at(v, key) {
            Some(i) => 0 <= i < v.len() && v[i].key@ == key,
            None => forall|j: int| 0 <= j < v.len() ==> (#[trigger] v[j]).key@ != key,
        },
    decreases v.len(),
{
    if v.len() > 0 && v.last().key@ != key {
        let d = v.drop_last();
        lemma_setting_at(d, key);
        assert forall|j: int| 0 <= j < d.len() implies d[j] == #[trigger] v[j] by {}
    }
}

/// A setting is found wherever it stands, as no two share a key.
pub proof fn lemma_setting_unique(v: Seq<Setting>, i: int)
    requires
        store::keys_differ(v),
        0 <= i < v.len(),
    ensures
        setting_at(v, v[i].key@) == Some(i),
{
    lemma_setting_at(v, v[i].key@);
    let j = setting_at(v, v[i].key@)->0;
    assert(v[j].key@ == v[i].key@);
    if i < j {
        assert(v[i].key@ != v[j].key@);
    } else if j < i {
        assert(v[j].key@ != v[i].key@);
    }
}

/// A setting was set at a time: its row was replaced, or added at the end.
pub open spec fn was_set(
    old_rows: Seq<Setting>,
    new_rows: Seq<Setting>,
    key: Seq<char>,
    value: Seq<char>,
    now: i64,
) -> bool {
    match setting_at(old_rows, key) {
        Some(i) => {
            &&& new_rows == old_rows.update(i, new_rows[i])
            &&& is_setting(new_rows[i], key, value, now)
        },
        None => {
            &&& new_rows == old_rows.push(new_rows.last())
            &&& new_rows.len() == old_rows.len() + 1
            &&& is_setting(new_rows.last(), key, value, now)
        },
    }
}

pub open spec fn is_setting(row: Setting, key: Seq<char>, value: Seq<char>, now: i64) -> bool {
    &&& row.key@ == key
    &&& row.value@ == value
    &&& row.updated_at == now
}

pub proof fn lemma_keys_still_differ(
    before: Seq<Setting>,
    after: Seq<Setting>,
    key: Seq<char>,
    value: Seq<char>,
    now: i64,
)
    requires
        store::keys_differ(before),
        was_set(before, after, key, value, now),
    ensures
        store::keys_differ(after),
{
    lemma_setting_at(before, key);
    assert forall|i: int, j: int| 0 <= i < j < after.len() implies (#[trigger] after[i]).key@ != (
    #[trigger] after[j]).key@ by {
        if i < before.len() && j < before.len() {
            assert(before[i].key@ != before[j].key@);
            assert(after[i].key@ == before[i].key@);
            assert(after[j].key@ == before[j].key@);
        } else {
            assert(after[i] == before[i]);
        }
    }
}

/// A setting that was set is read back, and no other setting changes.
pub proof fn law_settings_read_back(
    old_rows: Seq<Setting>,
    new_rows: Seq<Setting>,
    key: Seq<char>,
    value: Seq<char>,
    now: i64,
    other: Seq<char>,
)
    requires
        store::keys_differ(old_rows),
        was_set(old_rows, new_rows, key, value, now),
    ensures
        setting(new_rows, key) == Some(value),
        other != key ==> setting(new_rows, other) == setting(old_rows, other),
{
    lemma_keys_still_differ(old_rows, new_rows, key, value, now);
    lemma_setting_at(old_rows, key);
    lemma_setting_at(old_rows, other);
    lemma_setting_at(new_rows, other);
    match setting_at(old_rows, key) {
        Some(i) => {
            lemma_setting_unique(new_rows, i);
        },
        None => {
            lemma_setting_unique(new_rows, new_rows.len() - 1);
        },
    }
    if other != key {
        match setting_at(old_rows, other) {
            Some(i) => {
                assert(new_rows[i] == old_rows[i]);
                lemma_setting_unique(new_rows, i);
            },
            None => {
                if setting_at(new_rows, other) is Some {
                    let j = setting_at(new_rows, other)->0;
                    if j < old_rows.len() {
                        assert(new_rows[j].key@ == old_rows[j].key@);
                        assert(old_rows[j].key@ != other);
                    }
                }
            },
        }
    }
}

/// The default settings.
pub open spec fn default_settings() -> Seq<(Seq<char>, Seq<char>)> {
    seq![
        ("retention.raw_days"@, "7"@),
        ("rollups.global_enabled"@, "true"@),
        ("rollups.per_target_enabled"@, "false"@),
    ]
}

/// A setting was added unless it was there.
pub open spec fn was_seeded(
    old_rows: Seq<Setting>,
    new_rows: Seq<Setting>,
    key: Seq<char>,
    value: Seq<char>,
    now: i64,
) -> bool {
    if setting(old_rows, key) is Some {
        new_rows == old_rows
    } else {
        was_set(old_rows, new_rows, key, value, now)
    }
}

/// Each default setting was added, in turn, unless it was there; `a` and `b`
/// are the rows after the first and the second.
pub open spec fn seeding_steps(
    old_rows: Seq<Setting>,
    a: Seq<Setting>,
    b: Seq<Setting>,
    new_rows: Seq<Setting>,
    now: i64,
) -> bool {
    let d = default_settings();
    &&& was_seeded(old_rows, a, d[0].0, d[0].1, now)
    &&& was_seeded(a, b, d[1].0, d[1].1, now)
    &&& was_seeded(b, new_rows, d[2].0, d[2].1, now)
}

pub open spec fn defaults_added(
    old_rows: Seq<Setting>,
    new_rows: Seq<Setting>,
    now: i64,
) -> bool {
    exists|a: Seq<Setting>, b: Seq<Setting>| #[trigger]
        seeding_steps(old_rows, a, b, new_rows, now)
}

proof fn lemma_was_seeded(
    before: Seq<Setting>,
    after: Seq<Setting>,
    key: Seq<char>,
    value: Seq<char>,
    now: i64,
    other: Seq<char>,
)
    requires
        store::keys_differ(before),
        was_seeded(before, after, key, value, now),
    ensures
        store::keys_differ(after),
        setting(after, key) is Some,
        setting(before, other) is Some ==> setting(after, other) == setting(before, other),
        other != key ==> setting(after, other) == setting(before, other),
{
    if setting(before, key) is None {
        lemma_keys_still_differ(before, after, key, value, now);
        law_settings_read_back(before, after, key, value, now, other);
        law_settings_read_back(before, after, key, value, now, key);
    }
}

/// Adding the defaults keeps every setting that there is and adds none but the
/// defaults, all of which are there afterwards. Adding them again, at any time,
/// changes nothing.
pub proof fn law_seeding_settings_keeps_them(
    before: Seq<Setting>,
    once: Seq<Setting>,
    twice: Seq<Setting>,
    first: i64,
    second: i64,
    key: Seq<char>,
)
    requires
        store::keys_differ(before),
        defaults_added(before, once, first),
        defaults_added(once, twice, second),
    ensures
        setting(before, key) is Some ==> setting(once, key) == setting(before, key),
        (forall|i: int| 0 <= i < 3 ==> (#[trigger] default_settings()[i]).0 != key) ==> setting(
            once,
            key,
        ) == setting(before, key),
        forall|i: int|
            0 <= i < 3 ==> setting(once, (#[trigger] default_settings()[i]).0) is Some,
        twice == once,
{
    let d = default_settings();
    let (a, b) = choose|a: Seq<Setting>, b: Seq<Setting>| #[trigger]
        seeding_steps(before, a, b, once, first);
    lemma_was_seeded(before, a, d[0].0, d[0].1, first, key);
    lemma_was_seeded(a, b, d[1].0, d[1].1, first, key);
    lemma_was_seeded(b, once, d[2].0, d[2].1, first, key);
    lemma_was_seeded(a, b, d[1].0, d[1].1, first, d[0].0);
    lemma_was_seeded(b, once, d[2].0, d[2].1, first, d[0].0);
    lemma_was_seeded(b, once, d[2].0, d[2].1, first, d[1].0);
    assert(setting(once, d[0].0) is Some && setting(once, d[1].0) is Some);
}

impl Store {
    fn find_setting(&self, key: &str) -> (r: Option<usize>)
        ensures
            match r {
                Some(i) => setting_at(self.settings@, key@) == Some(i as int) && i
                    < self.settings@.len(),
                None => setting_at(self.settings@, key@) is None,
            },
    {
        let mut i: usize = self.settings.len();
        assert(self.settings@.take(i as int) == self.settings@);
        while i > 0
            invariant
                i <= self.settings.len(),
                setting_at(self.settings@, key@) == setting_at(self.settings@.take(i as int), key@),
            decreases i,
        {
            assert(self.settings@.take(i as int).drop_last() == self.settings@.take(i - 1));
            if text::same_str(self.settings[i - 1].key.as_str(), key) {
                return Some(i - 1);
            }
            i -= 1;
        }
        None
    }

    /// The text of a setting.
    pub fn get_setting(&self, key: &str) -> (r: Option<String>)
        ensures
            text::opt_text(r) == setting(self.settings@, key@),
    {
        match self.find_setting(key) {
            Some(i) => Some(self.settings[i].value.clone()),
            None => None,
        }
    }

    /// A setting as a whole number; `None` if it is absent or no such number.
    pub fn get_setting_i64(&self, key: &str) -> (r: Option<i64>)
        ensures
            r == setting_i64(self.settings@, key@),
    {
        match self.get_setting(key) {
            Some(v) => number::read_i64(text::trimmed(&text::chars(v.as_str()))),
            None => None,
        }
    }

    /// A setting as a decimal; `None` if it is absent or no such number.
    pub fn get_setting_f64(&self, key: &str) -> (r: Option<Reading>)
        ensures
            r == setting_reading(self.settings@, key@),
    {
        match self.get_setting(key) {
            Some(v) => number::read_decimal(text::trimmed(&text::chars(v.as_str()))),
            None => None,
        }
    }

    /// Sets a setting, adding it if it is new.
    pub fn set_setting(&mut self, key: &str, value: &str, now: i64)
        requires
            old(self).wf(),
        ensures
            final(self).wf(),
            was_set(old(self).settings@, final(self).settings@, key@, value@, now),
            setting(final(self).settings@, key@) == Some(value@),
            forall|k: Seq<char>|
                k != key@ ==> #[trigger] setting(final(self).settings@, k) == setting(
                    old(self).settings@,
                    k,
                ),
            *final(self) == (Store { settings: final(self).settings, ..*old(self) }),
    {
        let ghost before = self.settings@;
        proof {
            lemma_setting_at(before, key@);
        }
        let row = Setting { key: key.to_string(), value: value.to_string(), updated_at: now };
        match self.find_setting(key) {
            Some(i) => {
                self.settings[i] = row;
                assert(self.settings@ == before.update(i as int, self.settings@[i as int]));
            },
            None => {
                self.settings.push(row);
                assert(self.settings@ == before.push(self.settings@.last()));
            },
        }
        proof {
            let after = self.settings@;
            lemma_keys_still_differ(before, after, key@, value@, now);
            assert forall|k: Seq<char>| k != key@ implies #[trigger] setting(after, k) == setting(
                before,
                k,
            ) by {
                law_settings_read_back(before, after, key@, value@, now, k);
            }
            law_settings_read_back(before, after, key@, value@, now, key@);
        }
    }

    fn seed_setting(&mut self, key: &str, value: &str, now: i64)
        requires
            old(self).wf(),
        ensures
            final(self).wf(),
            was_seeded(old(self).settings@, final(self).settings@, key@, value@, now),
            *final(self) == (Store { settings: final(self).settings, ..*old(self) }),
    {
        if self.find_setting(key).is_none() {
            self.set_setting(key, value, now);
        }
    }

    /// Stores each default setting that is absent.
    pub fn seed_default_settings(&mut self, now: i64)
        requires
            old(self).wf(),
        ensures
            final(self).wf(),
            defaults_added(old(self).settings@, final(self).settings@, now),
            *final(self) == (Store { settings: final(self).settings, ..*old(self) }),
    {
        let ghost start = self.settings@;
        self.seed_setting("retention.raw_days", "7", now);
        let ghost a = self.settings@;
        self.seed_setting("rollups.global_enabled", "true", now);
        let ghost b = self.settings@;
        self.seed_setting("rollups.per_target_enabled", "false", now);
        assert(seeding_steps(start, a, b, self.settings@, now));
    }
}

// ---------------------------------------------------------------------------
// Connectivity samples
// ---------------------------------------------------------------------------

/// The stored form of a sample.
pub open spec fn stored(id: i64, s: NewConnectivitySample) -> ConnectivitySample {
    ConnectivitySample {
        id,
        ts: s.ts,
        target_id: s.target_id,
        ip_version: s.ip_version,
        sent: s.sent,
        received: s.received,
        loss_pct: s.loss_pct,
        rtt_min: s.rtt_min,
        rtt_avg: s.rtt_avg,
        rtt_max: s.rtt_max,
        rtt_jitter: s.rtt_jitter,
        up: s.up,
    }
}

impl Store {
    pub fn has_target(&self, id: i64) -> (r: bool)
        ensures
            r == store::target_ids(self.targets@).contains(id),
    {
        let mut i: usize = 0;
        while i < self.targets.len()
            invariant
                i <= self.targets.len(),
                forall|k: int| 0 <= k < i ==> (#[trigger] store::target_ids(self.targets@)[k]) != id,
            decreases self.targets.len() - i,
        {
            if self.targets[i].id == id {
                assert(store::target_ids(self.targets@)[i as int] == id);
                return true;
            }
            i += 1;
        }
        false
    }

    /// Stores the result of a probe cycle. The target must exist.
    pub fn insert_connectivity_sample(&mut self, s: NewConnectivitySample) -> (r: Result<
        (),
        StoreError,
    >)
        requires
            old(self).wf(),
        ensures
            final(self).wf(),
            match r {
                Ok(_) => {
                    &&& store::target_ids(old(self).targets@).contains(s.target_id)
                    &&& store::next_id(store::sample_ids(old(self).connectivity@)) is Some
                    &&& final(self).connectivity@ == old(self).connectivity@.push(
                        stored(store::next_id(store::sample_ids(old(self).connectivity@))->0, s),
                    )
                    &&& *final(self) == (Store { connectivity: final(self).connectivity, ..*old(self) })
                },
                Err(StoreError::NoSuchTarget) => {
                    &&& !store::target_ids(old(self).targets@).contains(s.target_id)
                    &&& *final(self) == *old(self)
                },
                Err(e) => {
                    &&& e == StoreError::Full
                    &&& store::target_ids(old(self).targets@).contains(s.target_id)
                    &&& store::next_id(store::sample_ids(old(self).connectivity@)) is None
                    &&& *final(self) == *old(self)
                },
            },
    {
        if !self.has_target(s.target_id) {
            return Err(StoreError::NoSuchTarget);
        }
        let n: usize = self.connectivity.len();
        let last: Option<i64> = if n == 0 { None } else { Some(self.connectivity[n - 1].id) };
        let id = match store::id_after(last) {
            Some(id) => id,
            None => {
                return Err(StoreError::Full);
            },
        };
        let ghost before = self.connectivity@;
        self.connectivity.push(
            ConnectivitySample {
                id,
                ts: s.ts,
                target_id: s.target_id,
                ip_version: s.ip_version,
                sent: s.sent,
                received: s.received,
                loss_pct: s.loss_pct,
                rtt_min: s.rtt_min,
                rtt_avg: s.rtt_avg,
                rtt_max: s.rtt_max,
                rtt_jitter: s.rtt_jitter,
                up: s.up,
            },
        );
        proof {
            store::lemma_next_id(store::sample_ids(before));
            assert(store::sample_ids(self.connectivity@) == store::sample_ids(before).push(id));
        }
        Ok(())
    }

    /// The newest samples over all targets, newest first.
    pub fn recent_connectivity(&self, limit: i64) -> (r: Vec<&ConnectivitySample>)
        ensures
            lists_newest(r@, self.connectivity@, limit),
    {
        newest_rows(&self.connectivity, limit)
    }
}

// ---------------------------------------------------------------------------
// Events
// ---------------------------------------------------------------------------

/// An event with this content.
pub open spec fn is_event(
    e: Event,
    ts: i64,
    kind: Seq<char>,
    severity: Seq<char>,
    duration_ms: Option<i64>,
    payload: Option<Seq<char>>,
) -> bool {
    &&& e.ts == ts
    &&& e.kind@ == kind
    &&& e.severity@ == severity
    &&& e.duration_ms == duration_ms
    &&& text::opt_text(e.payload) == payload
}

/// One event was added at the end, under a new identifier.
pub open spec fn event_added(
    old_rows: Seq<Event>,
    new_rows: Seq<Event>,
    ts: i64,
    kind: Seq<char>,
    severity: Seq<char>,
    duration_ms: Option<i64>,
    payload: Option<Seq<char>>,
) -> bool {
    &&& new_rows.len() == old_rows.len() + 1
    &&& new_rows.drop_last() == old_rows
    &&& store::next_id(store::event_ids(old_rows)) == Some(new_rows.last().id)
    &&& is_event(new_rows.last(), ts, kind, severity, duration_ms, payload)
}

impl Store {
    /// Stores an event.
    pub fn insert_event(
        &mut self,
        ts: i64,
        kind: &str,
        severity: &str,
        duration_ms: Option<i64>,
        payload: Option<&str>,
    ) -> (r: Result<(), StoreError>)
        requires
            old(self).wf(),
        ensures
            final(self).wf(),
            match r {
                Ok(_) => {
                    &&& event_added(
                        old(self).events@,
                        final(self).events@,
                        ts,
                        kind@,
                        severity@,
                        duration_ms,
                        text::str_view(payload),
                    )
                    &&& *final(self) == (Store { events: final(self).events, ..*old(self) })
                },
                Err(e) => {
                    &&& e == StoreError::Full
                    &&& store::next_id(store::event_ids(old(self).events@)) is None
                    &&& *final(self) == *old(self)
                },
            },
    {
        let n: usize = self.events.len();
        let last: Option<i64> = if n == 0 { None } else { Some(self.events[n - 1].id) };
        let id = match store::id_after(last) {
            Some(id) => id,
            None => {
                return Err(StoreError::Full);
            },
        };
        let ghost before = self.events@;
        self.events.push(
            Event {
                id,
                ts,
                kind: kind.to_string(),
                severity: severity.to_string(),
                duration_ms,
                payload: own_text(payload),
            },
        );
        proof {
            store::lemma_next_id(store::event_ids(before));
            assert(store::event_ids(self.events@) == store::event_ids(before).push(id));
            assert(self.events@.drop_last() == before);
        }
        Ok(())
    }

    /// The newest events first.
    pub fn recent_events(&self, limit: i64) -> (r: Vec<&Event>)
        ensures
            lists_newest(r@, self.events@, limit),
    {
        newest_rows(&self.events, limit)
    }
}

// ---------------------------------------------------------------------------
// Outages
// ---------------------------------------------------------------------------

/// Which outages are still open.
pub open spec fn open_ones(v: Seq<Outage>) -> Seq<bool> {
    v.map_values(|o: Outage| o.ts_end is None)
}

/// The open outage, the newest if there are several.
pub open spec fn open_outage_at(v: Seq<Outage>) -> Option<int> {
    order::newest_kept(rows::stamps(v), open_ones(v))
}

/// One outage was opened at the end, under a new identifier.
pub open spec fn outage_opened(
    old_rows: Seq<Outage>,
    new_rows: Seq<Outage>,
    id: i64,
    ts: i64,
    cause: Option<Seq<char>>,
) -> bool {
    &&& new_rows.len() == old_rows.len() + 1
    &&& new_rows.drop_last() == old_rows
    &&& store::next_id(store::outage_ids(old_rows)) == Some(id)
    &&& new_rows.last().id == id
    &&& new_rows.last().ts_start == ts
    &&& new_rows.last().ts_end is None
    &&& new_rows.last().duration_ms is None
    &&& new_rows.last().reconnect_ms is None
    &&& text::opt_text(new_rows.last().cause) == cause
}

/// An outage as it is once closed: with its end, its duration and how long the
/// reconnect took.
pub open spec fn closed(o: Outage, ts_end: i64, reconnect_ms: Option<i64>) -> Outage {
    Outage {
        ts_end: Some(ts_end),
        duration_ms: Some((ts_end - o.ts_start) as i64),
        reconnect_ms,
        ..o
    }
}

/// The outages after the one with this identifier was closed.
pub open spec fn with_closed(
    v: Seq<Outage>,
    id: i64,
    ts_end: i64,
    reconnect_ms: Option<i64>,
) -> Seq<Outage> {
    v.map_values(
        |o: Outage|
            if o.id == id {
                closed(o, ts_end, reconnect_ms)
            } else {
                o
            },
    )
}

impl Store {
    /// The newest outages first.
    pub fn recent_outages(&self, limit: i64) -> (r: Vec<&Outage>)
        ensures
            lists_newest(r@, self.outages@, limit),
    {
        newest_rows(&self.outages, limit)
    }

    fn open_flags(&self) -> (r: Vec<bool>)
        ensures
            r@ == open_ones(self.outages@),
    {
        let mut out: Vec<bool> = Vec::new();
        let mut i: usize = 0;
        while i < self.outages.len()
            invariant
                i <= self.outages.len(),
                out@ == open_ones(self.outages@).take(i as int),
            decreases self.outages.len() - i,
        {
            out.push(self.outages[i].ts_end.is_none());
            assert(out@ == open_ones(self.outages@).take(i + 1));
            i += 1;
        }
        assert(out@ == open_ones(self.outages@));
        out
    }

    /// The outage that has no end yet.
    pub fn current_open_outage(&self) -> (r: Option<&Outage>)
        ensures
            match (r, open_outage_at(self.outages@)) {
                (Some(o), Some(i)) => *o == self.outages@[i] && o.ts_end is None,
                (None, None) => true,
                _ => false,
            },
    {
        let keep = self.open_flags();
        proof {
            order::law_newest_kept(rows::stamps(self.outages@), keep@);
        }
        newest_row(&self.outages, &keep)
    }

    /// Opens an outage and returns its identifier.
    pub fn open_outage(&mut self, ts: i64, cause: Option<&str>) -> (r: Result<i64, StoreError>)
        requires
            old(self).wf(),
        ensures
            final(self).wf(),
            match r {
                Ok(id) => {
                    &&& outage_opened(
                        old(self).outages@,
                        final(self).outages@,
                        id,
                        ts,
                        text::str_view(cause),
                    )
                    &&& *final(self) == (Store { outages: final(self).outages, ..*old(self) })
                },
                Err(e) => {
                    &&& e == StoreError::Full
                    &&& store::next_id(store::outage_ids(old(self).outages@)) is None
                    &&& *final(self) == *old(self)
                },
            },
    {
        let n: usize = self.outages.len();
        let last: Option<i64> = if n == 0 { None } else { Some(self.outages[n - 1].id) };
        let id = match store::id_after(last) {
            Some(id) => id,
            None => {
                return Err(StoreError::Full);
            },
        };
        let ghost before = self.outages@;
        self.outages.push(
            Outage {
                id,
                ts_start: ts,
                ts_end: None,
                duration_ms: None,
                reconnect_ms: None,
                cause: own_text(cause),
            },
        );
        proof {
            store::lemma_next_id(store::outage_ids(before));
            assert(store::outage_ids(self.outages@) == store::outage_ids(before).push(id));
            assert(self.outages@.drop_last() == before);
        }
        Ok(id)
    }

    /// Closes the outage with this identifier. Its duration must fit in an `i64`.
    pub fn close_outage(&mut self, id: i64, ts_end: i64, reconnect_ms: Option<i64>)
        requires
            old(self).wf(),
            forall|i: int|
                0 <= i < old(self).outages@.len() && (#[trigger] old(self).outages@[i]).id == id
                    ==> i64::MIN <= ts_end - old(self).outages@[i].ts_start <= i64::MAX,
        ensures
            final(self).wf(),
            final(self).outages@ == with_closed(old(self).outages@, id, ts_end, reconnect_ms),
            *final(self) == (Store { outages: final(self).outages, ..*old(self) }),
    {
        let ghost all = self.outages@;
        let ghost rest = *self;
        let ghost want = with_closed(all, id, ts_end, reconnect_ms);
        let mut i: usize = 0;
        while i < self.outages.len()
            invariant
                i <= self.outages.len(),
                want == with_closed(all, id, ts_end, reconnect_ms),
                *self == (Store { outages: self.outages, ..rest }),
                self.outages@.len() == all.len(),
                forall|k: int|
                    0 <= k < all.len() && (#[trigger] all[k]).id == id ==> i64::MIN <= ts_end
                        - all[k].ts_start <= i64::MAX,
                forall|k: int| 0 <= k < i ==> self.outages@[k] == want[k],
                forall|k: int| i <= k < all.len() ==> self.outages@[k] == all[k],
            decreases self.outages.len() - i,
        {
            assert(self.outages@[i as int] == all[i as int]);
            if self.outages[i].id == id {
                let start: i64 = self.outages[i].ts_start;
                self.outages[i].ts_end = Some(ts_end);
                self.outages[i].duration_ms = Some(ts_end - start);
                self.outages[i].reconnect_ms = reconnect_ms;
            }
            i += 1;
        }
        assert(self.outages@ == want);
        proof {
            assert(store::outage_ids(self.outages@) == store::outage_ids(all));
        }
    }
}

// ---------------------------------------------------------------------------
// Bandwidth and interfaces
// ---------------------------------------------------------------------------

/// The bytes received that interface rows since a time report; rows without a
/// count add nothing.
pub open spec fn rx_since(v: Seq<InterfaceSample>, since: i64) -> int
    decreases v.len(),
{
    if v.len() == 0 {
        0
    } else if v.last().ts >= since && v.last().rx_bytes is Some {
        rx_since(v.drop_last(), since) + v.last().rx_bytes->0
    } else {
        rx_since(v.drop_last(), since)
    }
}

pub open spec fn tx_since(v: Seq<InterfaceSample>, since: i64) -> int
    decreases v.len(),
{
    if v.len() == 0 {
        0
    } else if v.last().ts >= since && v.last().tx_bytes is Some {
        tx_since(v.drop_last(), since) + v.last().tx_bytes->0
    } else {
        tx_since(v.drop_last(), since)
    }
}

/// Which rows are pings of the gateway.
pub open spec fn gateway_rows(v: Seq<InterfaceSample>) -> Seq<bool> {
    v.map_values(|s: InterfaceSample| s.iface@ == "gateway"@)
}

pub open spec fn fits_i64(n: int) -> bool {
    i64::MIN <= n <= i64::MAX
}

/// A ping of the gateway adds nothing to the bytes of any window.
pub proof fn law_gateway_rows_move_no_bytes(
    v: Seq<InterfaceSample>,
    row: InterfaceSample,
    since: i64,
)
    requires
        row.rx_bytes is None,
        row.tx_bytes is None,
    ensures
        rx_since(v.push(row), since) == rx_since(v, since),
        tx_since(v.push(row), since) == tx_since(v, since),
{
    assert(v.push(row).drop_last() == v);
}

impl Store {
    /// Stores the aggregate bandwidth of a cycle.
    pub fn insert_bandwidth_sample(&mut self, ts: i64, rx_bps: i64, tx_bps: i64)
        requires
            old(self).wf(),
        ensures
            final(self).wf(),
            final(self).bandwidth@ == old(self).bandwidth@.push(
                (BandwidthNow { ts, rx_bps, tx_bps }),
            ),
            *final(self) == (Store { bandwidth: final(self).bandwidth, ..*old(self) }),
    {
        self.bandwidth.push(BandwidthNow { ts, rx_bps, tx_bps });
    }

    /// Stores the bytes of an interface in a cycle.
    pub fn insert_interface_bytes(&mut self, ts: i64, iface: &str, rx_bytes: i64, tx_bytes: i64)
        requires
            old(self).wf(),
        ensures
            final(self).wf(),
            final(self).interfaces@.len() == old(self).interfaces@.len() + 1,
            final(self).interfaces@.drop_last() == old(self).interfaces@,
            ({
                let row = final(self).interfaces@.last();
                &&& row.ts == ts && row.iface@ == iface@
                &&& row.rx_bytes == Some(rx_bytes) && row.tx_bytes == Some(tx_bytes)
                &&& row.gateway_rtt_ms is None && row.lan_loss_pct is None
            }),
            *final(self) == (Store { interfaces: final(self).interfaces, ..*old(self) }),
    {
        let ghost before = self.interfaces@;
        self.interfaces.push(
            InterfaceSample {
                ts,
                iface: iface.to_string(),
                rx_bytes: Some(rx_bytes),
                tx_bytes: Some(tx_bytes),
                gateway_rtt_ms: None,
                lan_loss_pct: None,
            },
        );
        assert(self.interfaces@.drop_last() == before);
    }

    /// Stores a ping of the gateway: a row that is marked by its interface name
    /// and moves no bytes.
    pub fn insert_gateway_sample(&mut self, ts: i64, rtt_ms: Option<Reading>, loss_pct: Reading)
        requires
            old(self).wf(),
        ensures
            final(self).wf(),
            final(self).interfaces@.len() == old(self).interfaces@.len() + 1,
            final(self).interfaces@.drop_last() == old(self).interfaces@,
            ({
                let row = final(self).interfaces@.last();
                &&& row.ts == ts && row.iface@ == "gateway"@
                &&& row.rx_bytes is None && row.tx_bytes is None
                &&& row.gateway_rtt_ms == rtt_ms && row.lan_loss_pct == Some(loss_pct)
            }),
            *final(self) == (Store { interfaces: final(self).interfaces, ..*old(self) }),
    {
        let ghost before = self.interfaces@;
        self.interfaces.push(
            InterfaceSample {
                ts,
                iface: "gateway".to_string(),
                rx_bytes: None,
                tx_bytes: None,
                gateway_rtt_ms: rtt_ms,
                lan_loss_pct: Some(loss_pct),
            },
        );
        assert(self.interfaces@.drop_last() == before);
    }

    /// Stores the totals of interface errors and drops.
    pub fn insert_interface_errors(
        &mut self,
        ts: i64,
        rx_errors: i64,
        rx_drops: i64,
        tx_errors: i64,
        tx_drops: i64,
    )
        requires
            old(self).wf(),
        ensures
            final(self).wf(),
            final(self).interface_errors@ == old(self).interface_errors@.push(
                (InterfaceErrorSample { ts, rx_errors, rx_drops, tx_errors, tx_drops }),
            ),
            *final(self) == (Store {
                interface_errors: final(self).interface_errors,
                ..*old(self)
            }),
    {
        self.interface_errors.push(
            InterfaceErrorSample { ts, rx_errors, rx_drops, tx_errors, tx_drops },
        );
    }

    /// The latest ping of the gateway.
    pub fn latest_gateway(&self) -> (r: Option<GatewaySample>)
        ensures
            match (
                r,
                order::newest_kept(rows::stamps(self.interfaces@), gateway_rows(self.interfaces@)),
            ) {
                (Some(g), Some(i)) => {
                    let row = self.interfaces@[i];
                    g == GatewaySample {
                        ts: row.ts,
                        gateway_rtt_ms: row.gateway_rtt_ms,
                        lan_loss_pct: row.lan_loss_pct,
                    }
                },
                (None, None) => true,
                _ => false,
            },
    {
        let mut keep: Vec<bool> = Vec::new();
        let mut i: usize = 0;
        while i < self.interfaces.len()
            invariant
                i <= self.interfaces.len(),
                keep@ == gateway_rows(self.interfaces@).take(i as int),
            decreases self.interfaces.len() - i,
        {
            keep.push(text::same_str(self.interfaces[i].iface.as_str(), "gateway"));
            assert(keep@ == gateway_rows(self.interfaces@).take(i + 1));
            i += 1;
        }
        assert(keep@ == gateway_rows(self.interfaces@));
        match newest_row(&self.interfaces, &keep) {
            Some(row) => Some(
                GatewaySample {
                    ts: row.ts,
                    gateway_rtt_ms: row.gateway_rtt_ms,
                    lan_loss_pct: row.lan_loss_pct,
                },
            ),
            None => None,
        }
    }

    /// The latest aggregate bandwidth.
    pub fn latest_bandwidth(&self) -> (r: Option<&BandwidthNow>)
        ensures
            is_newest(r, self.bandwidth@, all_true(self.bandwidth@.len())),
    {
        newest_row(&self.bandwidth, &trues(self.bandwidth.len()))
    }

    /// Bytes moved over all interfaces since a time. A sum that does not fit is
    /// an error.
    pub fn bandwidth_totals(&self, since: i64) -> (r: Result<BandwidthTotals, StoreError>)
        ensures
            match r {
                Ok(t) => t.rx_bytes == rx_since(self.interfaces@, since) && t.tx_bytes == tx_since(
                    self.interfaces@,
                    since,
                ),
                Err(e) => e == StoreError::Overflow && !(fits_i64(rx_since(self.interfaces@, since))
                    && fits_i64(tx_since(self.interfaces@, since))),
            },
    {
        let mut rx: i128 = 0;
        let mut tx: i128 = 0;
        let mut i: usize = 0;
        while i < self.interfaces.len()
            invariant
                i <= self.interfaces.len(),
                rx == rx_since(self.interfaces@.take(i as int), since),
                tx == tx_since(self.interfaces@.take(i as int), since),
                -(i * 0x8000_0000_0000_0000) <= rx <= i * 0x8000_0000_0000_0000,
                -(i * 0x8000_0000_0000_0000) <= tx <= i * 0x8000_0000_0000_0000,
            decreases self.interfaces.len() - i,
        {
            assert(self.interfaces@.take(i + 1).drop_last() == self.interfaces@.take(i as int));
            assert(i * 0x8000_0000_0000_0000 + 0x8000_0000_0000_0000 <= i128::MAX)
                by (nonlinear_arith)
                requires
                    0 <= i <= 0xffff_ffff_ffff_fffe,
            ;
            let row = &self.interfaces[i];
            if row.ts >= since {
                if let Some(n) = row.rx_bytes {
                    rx = rx + n as i128;
                }
                if let Some(n) = row.tx_bytes {
                    tx = tx + n as i128;
                }
            }
            i += 1;
        }
        assert(self.interfaces@.take(self.interfaces@.len() as int) == self.interfaces@);
        let lo: i128 = i64::MIN as i128;
        let hi: i128 = i64::MAX as i128;
        if lo <= rx && rx <= hi && lo <= tx && tx <= hi {
            Ok(BandwidthTotals { rx_bytes: rx as i64, tx_bytes: tx as i64 })
        } else {
            Err(StoreError::Overflow)
        }
    }
}

// ---------------------------------------------------------------------------
// Speed tests and Wi-Fi
// ---------------------------------------------------------------------------

impl Store {
    /// Stores a speed-test result.
    pub fn insert_speedtest(&mut self, s: &SpeedtestRow)
        requires
            old(self).wf(),
        ensures
            final(self).wf(),
            final(self).speedtests@ == old(self).speedtests@.push(*s),
            *final(self) == (Store { speedtests: final(self).speedtests, ..*old(self) }),
    {
        self.speedtests.push(s.copy());
    }

    /// The newest speed tests first.
    pub fn speedtest_history(&self, limit: i64) -> (r: Vec<&SpeedtestRow>)
        ensures
            lists_newest(r@, self.speedtests@, limit),
    {
        newest_rows(&self.speedtests, limit)
    }

    /// The newest speed test.
    pub fn latest_speedtest(&self) -> (r: Option<&SpeedtestRow>)
        ensures
            is_newest(r, self.speedtests@, all_true(self.speedtests@.len())),
    {
        newest_row(&self.speedtests, &trues(self.speedtests.len()))
    }

    /// Stores a Wi-Fi link sample.
    pub fn insert_wifi_sample(&mut self, s: &WifiSample)
        requires
            old(self).wf(),
        ensures
            final(self).wf(),
            final(self).wifi@ == old(self).wifi@.push(*s),
            *final(self) == (Store { wifi: final(self).wifi, ..*old(self) }),
    {
        self.wifi.push(s.copy());
    }

    /// The newest Wi-Fi sample.
    pub fn latest_wifi(&self) -> (r: Option<&WifiSample>)
        ensures
            is_newest(r, self.wifi@, all_true(self.wifi@.len())),
    {
        newest_row(&self.wifi, &trues(self.wifi.len()))
    }
}

/// The bytes moved since a time add up row by row: a row of the window gives what it
/// counted, an older one nothing.
pub proof fn law_counters_of_the_window_add_up(
    a: Seq<InterfaceSample>,
    b: Seq<InterfaceSample>,
    row: InterfaceSample,
    since: i64,
)
    ensures
        rx_since(a + b, since) == rx_since(a, since) + rx_since(b, since),
        rx_since(seq![row], since) == (if row.ts >= since && row.rx_bytes is Some {
            row.rx_bytes->0 as int
        } else {
            0int
        }),
        rx_since(Seq::<InterfaceSample>::empty(), since) == 0,
        tx_since(a + b, since) == tx_since(a, since) + tx_since(b, since),
        tx_since(seq![row], since) == (if row.ts >= since && row.tx_bytes is Some {
            row.tx_bytes->0 as int
        } else {
            0int
        }),
        tx_since(Seq::<InterfaceSample>::empty(), since) == 0,
    decreases b.len(),
{
    reveal_with_fuel(rx_since, 2);
    reveal_with_fuel(tx_since, 2);
    assert(seq![row].drop_last() == Seq::<InterfaceSample>::empty());
    if b.len() == 0 {
        assert(a + b == a);
    } else {
        law_counters_of_the_window_add_up(a, b.drop_last(), row, since);
        assert((a + b).drop_last() == a + b.drop_last());
        assert(rx_since(a + b, since) == rx_since(a, since) + rx_since(b, since));
        assert(tx_since(a + b, since) == tx_since(a, since) + tx_since(b, since));
    }
}

/// The newest of the kept rows is kept and no kept row is newer; of rows of the same
/// time it is the last. There is none only where no row is kept.
pub proof fn law_newest_row_is_the_latest<T: Stamped>(table: Seq<T>, keep: Seq<bool>)
    requires
        table.len() == keep.len(),
    ensures
        match newest_where(table, keep) {
            Some(row) => exists|i: int|
                {
                    &&& 0 <= i < table.len()
                    &&& #[trigger] table[i] == row
                    &&& keep[i]
                    &&& forall|k: int|
                        0 <= k < table.len() && #[trigger] keep[k]
                            ==> table[k].stamp() < row.stamp()
                            || (table[k].stamp() == row.stamp() && k <= i)
                },
            None => forall|k: int| 0 <= k < table.len() ==> !#[trigger] keep[k],
        },
{
    let times = rows::stamps(table);
    order::law_newest_kept(times, keep);
    match order::newest_kept(times, keep) {
        Some(i) => {
            assert forall|k: int| 0 <= k < table.len() && #[trigger] keep[k] implies table[k].stamp()
                < table[i].stamp() || (table[k].stamp() == table[i].stamp() && k <= i) by {
                assert(times[k] == table[k].stamp());
                assert(times[i] == table[i].stamp());
            }
        },
        None => {},
    }
}

/// The newest of all rows is no older than any, and there is one as soon as there is
/// a row.
pub proof fn law_newest_of_all_is_the_latest<T: Stamped>(table: Seq<T>, k: int)
    requires
        0 <= k < table.len(),
    ensures
        newest_in(table) is Some,
        table.contains(newest_in(table)->0),
        table[k].stamp() <= newest_in(table)->0.stamp(),
{
    law_newest_row_is_the_latest(table, all_true(table.len()));
    assert(all_true(table.len())[k]);
}

/// A key has the value of a row with that key, and none where no row has it.
pub proof fn law_settings_are_found_by_key(v: Seq<Setting>, key: Seq<char>)
    ensures
        match setting(v, key) {
            Some(x) => exists|i: int|
                0 <= i < v.len() && (#[trigger] v[i]).key@ == key && v[i].value@ == x,
            None => forall|i: int| 0 <= i < v.len() ==> (#[trigger] v[i]).key@ != key,
        },
{
    lemma_setting_at(v, key);
}

/// A setting carries the time at which it was last set.
pub proof fn law_settings_keep_the_time(
    old_rows: Seq<Setting>,
    new_rows: Seq<Setting>,
    key: Seq<char>,
    value: Seq<char>,
    now: i64,
)
    requires
        was_set(old_rows, new_rows, key, value, now),
    ensures
        exists|i: int|
            0 <= i < new_rows.len() && (#[trigger] new_rows[i]).key@ == key && new_rows[i].value@
                == value && new_rows[i].updated_at == now,
{
    lemma_setting_at(old_rows, key);
    match setting_at(old_rows, key) {
        Some(i) => {
            assert(new_rows[i].key@ == key);
        },
        None => {
            assert(new_rows[new_rows.len() - 1] == new_rows.last());
        },
    }
}

/// Settings that are missing are filled in with a week of raw samples, rollups over
/// all targets and none per target. A setting that is there stays.
pub proof fn law_missing_settings_are_filled_in(
    before: Seq<Setting>,
    after: Seq<Setting>,
    now: i64,
)
    requires
        store::keys_differ(before),
        defaults_added(before, after, now),
    ensures
        setting(after, "retention.raw_days"@) == (match setting(before, "retention.raw_days"@) {
            Some(x) => Some(x),
            None => Some("7"@),
        }),
        setting(after, "rollups.global_enabled"@) == (match setting(
            before,
            "rollups.global_enabled"@,
        ) {
            Some(x) => Some(x),
            None => Some("true"@),
        }),
        setting(after, "rollups.per_target_enabled"@) == (match setting(
            before,
            "rollups.per_target_enabled"@,
        ) {
            Some(x) => Some(x),
            None => Some("false"@),
        }),
{
    reveal_strlit("retention.raw_days");
    reveal_strlit("rollups.global_enabled");
    reveal_strlit("rollups.per_target_enabled");
    assert("retention.raw_days"@.len() == 18);
    assert("rollups.global_enabled"@.len() == 22);
    assert("rollups.per_target_enabled"@.len() == 26);
    let (a, b) = choose|a: Seq<Setting>, b: Seq<Setting>| #[trigger]
        seeding_steps(before, a, b, after, now);
    let d = default_settings();
    lemma_filled_in(before, a, d[0].0, d[0].1, now, d[1].0);
    lemma_filled_in(before, a, d[0].0, d[0].1, now, d[2].0);
    lemma_filled_in(a, b, d[1].0, d[1].1, now, d[0].0);
    lemma_filled_in(a, b, d[1].0, d[1].1, now, d[2].0);
    lemma_filled_in(b, after, d[2].0, d[2].1, now, d[0].0);
    lemma_filled_in(b, after, d[2].0, d[2].1, now, d[1].0);
}

/// Filling in one setting leaves the others.
proof fn lemma_filled_in(
    before: Seq<Setting>,
    after: Seq<Setting>,
    key: Seq<char>,
    value: Seq<char>,
    now: i64,
    other: Seq<char>,
)
    requires
        store::keys_differ(before),
        was_seeded(before, after, key, value, now),
        other != key,
    ensures
        store::keys_differ(after),
        setting(after, other) == setting(before, other),
        setting(after, key) == (match setting(before, key) {
            Some(x) => Some(x),
            None => Some(value),
        }),
{
    if setting(before, key) is None {
        law_settings_read_back(before, after, key, value, now, other);
        lemma_keys_still_differ(before, after, key, value, now);
    }
}

/// An event is recorded behind the others, with all that was said of it.
pub proof fn law_events_are_recorded(
    old_rows: Seq<Event>,
    new_rows: Seq<Event>,
    ts: i64,
    kind: Seq<char>,
    severity: Seq<char>,
    duration_ms: Option<i64>,
    payload: Option<Seq<char>>,
)
    requires
        event_added(old_rows, new_rows, ts, kind, severity, duration_ms, payload),
    ensures
        new_rows.len() == old_rows.len() + 1,
        forall|i: int| 0 <= i < old_rows.len() ==> #[trigger] new_rows[i] == old_rows[i],
        new_rows.last().ts == ts,
        new_rows.last().kind@ == kind,
        new_rows.last().severity@ == severity,
        new_rows.last().duration_ms == duration_ms,
        new_rows.last().payload is Some <==> payload is Some,
        payload is Some ==> new_rows.last().payload->0@ == payload->0,
        old_rows.len() > 0 ==> new_rows.last().id == old_rows.last().id + 1,
        old_rows.len() == 0 ==> new_rows.last().id == 1,
{
    assert forall|i: int| 0 <= i < old_rows.len() implies #[trigger] new_rows[i] == old_rows[i] by {
        assert(new_rows.drop_last()[i] == new_rows[i]);
    }
}

/// The open outage has no end, and none without an end began later.
pub proof fn law_open_outage_is_the_latest(v: Seq<Outage>)
    ensures
        match open_outage_at(v) {
            Some(i) => {
                &&& 0 <= i < v.len()
                &&& v[i].ts_end is None
                &&& forall|k: int|
                    0 <= k < v.len() && (#[trigger] v[k]).ts_end is None ==> v[k].ts_start
                        <= v[i].ts_start
            },
            None => forall|k: int| 0 <= k < v.len() ==> (#[trigger] v[k]).ts_end is Some,
        },
{
    let times = rows::stamps(v);
    let open = open_ones(v);
    order::law_newest_kept(times, open);
    assert forall|k: int| 0 <= k < v.len() implies open[k] == ((#[trigger] v[k]).ts_end is None)
        && times[k] == v[k].ts_start by {}
}

/// Closing an outage sets its end, its duration and the time to reconnect, and
/// changes nothing else of it and nothing of the others.
pub proof fn law_closing_changes_one_outage(
    v: Seq<Outage>,
    id: i64,
    ts_end: i64,
    reconnect_ms: Option<i64>,
    i: int,
)
    requires
        0 <= i < v.len(),
        i64::MIN <= ts_end - v[i].ts_start <= i64::MAX,
    ensures
        ({
            let r = with_closed(v, id, ts_end, reconnect_ms);
            &&& r.len() == v.len()
            &&& v[i].id != id ==> r[i] == v[i]
            &&& r[i].id == v[i].id && r[i].ts_start == v[i].ts_start && r[i].cause == v[i].cause
            &&& v[i].id == id ==> {
                &&& r[i].ts_end == Some(ts_end)
                &&& r[i].duration_ms is Some
                &&& r[i].ts_start + r[i].duration_ms->0 == ts_end
                &&& r[i].reconnect_ms == reconnect_ms
            }
        }),
{
}

/// A setting as a whole number.
pub open spec fn setting_i64(v: Seq<Setting>, key: Seq<char>) -> Option<i64> {
    match setting(v, key) {
        Some(x) => number::parse_i64(text::trim(x)),
        None => None,
    }
}

/// A setting as a reading.
pub open spec fn setting_reading(v: Seq<Setting>, key: Seq<char>) -> Option<Reading> {
    match setting(v, key) {
        Some(x) => number::reading(text::trim(x)),
        None => None,
    }
}

/// A number that was set is read back, blanks around it aside. A missing setting is no
/// number.
pub proof fn law_numbers_are_read_from_settings(
    old_rows: Seq<Setting>,
    new_rows: Seq<Setting>,
    key: Seq<char>,
    value: Seq<char>,
    now: i64,
    n: i64,
)
    requires
        store::keys_differ(old_rows),
        was_set(old_rows, new_rows, key, value, now),
    ensures
        text::trim(value) == number::dec_int(n as int) ==> setting_i64(new_rows, key) == Some(n),
        number::integer(text::trim(value)) is None ==> setting_i64(new_rows, key) is None,
        setting_reading(new_rows, key) == number::reading(text::trim(value)),
        setting(old_rows, key) is None ==> setting_i64(old_rows, key) is None && setting_reading(
            old_rows,
            key,
        ) is None,
{
    law_settings_read_back(old_rows, new_rows, key, value, now, key);
    number::law_integers_round_trip(n);
}

} // verus!
