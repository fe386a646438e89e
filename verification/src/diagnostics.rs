//! Automated diagnostics: thresholds over what the store has collected.

use vstd::prelude::*;

use crate::display;
use crate::number;
use crate::number::Reading;
use crate::rows;
use crate::rows::{
    ConnectivitySample, DnsResolverStat, Event, Outage, SpeedtestRow, TracerouteHop, TracerouteView,
};
use crate::store::Store;
use crate::summary;
use crate::tables;
use crate::text;

verus! {

/// A flag that a threshold raised.
#[derive(Clone, Debug, PartialEq, Eq)]
pub struct Diagnostic {
    pub key: String,
    pub severity: String,
    pub title: String,
    pub summary: String,
    pub detail: String,
}

/// A flag's texts.
#[verifier::ext_equal]
pub struct DiagnosticView {
    pub key: Seq<char>,
    pub severity: Seq<char>,
    pub title: Seq<char>,
    pub summary: Seq<char>,
    pub detail: Seq<char>,
}

impl View for Diagnostic {
    type V = DiagnosticView;

    open spec fn view(&self) -> DiagnosticView {
        DiagnosticView {
            key: self.key@,
            severity: self.severity@,
            title: self.title@,
            summary: self.summary@,
            detail: self.detail@,
        }
    }
}

pub open spec fn opt_diagnostic(d: Option<Diagnostic>) -> Option<DiagnosticView> {
    match d {
        Some(x) => Some(x@),
        None => None,
    }
}

fn warning(key: &str, title: &str, summary: String, detail: String) -> (r: Diagnostic)
    ensures
        r@ == (DiagnosticView {
            key: key@,
            severity: "warn"@,
            title: title@,
            summary: summary@,
            detail: detail@,
        }),
{
    Diagnostic {
        key: key.to_string(),
        severity: "warn".to_string(),
        title: title.to_string(),
        summary,
        detail,
    }
}

// ---------------------------------------------------------------------------
// Outages
// ---------------------------------------------------------------------------

/// Whether an outage was a real one: at a probe every 15 seconds, at least half
/// of the expected samples were taken. Otherwise the device was asleep or off.
pub open spec fn is_real_outage(duration_ms: int, samples: int) -> bool {
    duration_ms <= 0 || 30_000 * samples >= duration_ms
}

pub fn classify_real_outage(duration_ms: i64, actual_samples: i64) -> (r: bool)
    ensures
        r == is_real_outage(duration_ms as int, actual_samples as int),
{
    duration_ms <= 0 || actual_samples as i128 * 30_000 >= duration_ms as i128
}

/// Neither more samples nor a shorter time ever turn a real outage into a gap.
pub proof fn law_more_samples_stay_real(duration_ms: i64, shorter: i64, samples: i64, more: i64)
    requires
        samples <= more,
        shorter <= duration_ms,
        is_real_outage(duration_ms as int, samples as int),
    ensures
        is_real_outage(shorter as int, more as int),
        is_real_outage(duration_ms as int, more as int),
        is_real_outage(shorter as int, samples as int),
{
}

/// The flag for many real outages: three in 24 hours.
pub open spec fn disconnects_flag(count: int) -> Option<DiagnosticView> {
    if count < 3 {
        None
    } else {
        Some(
            DiagnosticView {
                key: "frequent_disconnects"@,
                severity: "warn"@,
                title: "Frequent short disconnects"@,
                summary: number::dec_int(count) + " real outages in the last 24h"@,
                detail: number::dec_int(count)
                    + " internet outages in the last 24 hours were confirmed as real drops (continuous failed probes throughout), not just your device sleeping. This is more than the occasional blip and is worth raising with your ISP."@,
            },
        )
    }
}

pub fn check_frequent_disconnects(real_outage_count: i64) -> (r: Option<Diagnostic>)
    ensures
        opt_diagnostic(r) == disconnects_flag(real_outage_count as int),
{
    if real_outage_count < 3 {
        return None;
    }
    let mut summary = number::i64_text(real_outage_count);
    summary.append(" real outages in the last 24h");
    let mut detail = number::i64_text(real_outage_count);
    detail.append(
        " internet outages in the last 24 hours were confirmed as real drops (continuous failed probes throughout), not just your device sleeping. This is more than the occasional blip and is worth raising with your ISP.",
    );
    Some(warning("frequent_disconnects", "Frequent short disconnects", summary, detail))
}

// ---------------------------------------------------------------------------
// Routes
// ---------------------------------------------------------------------------

/// A hop past the gateway that loses at least 20 percent.
pub open spec fn is_lossy(h: TracerouteHop) -> bool {
    h.hop_no > 1 && h.loss_pct is Some && h.loss_pct->0.billionths >= 20_000_000_000
}

/// The lossy hop with the most loss; the last of equals.
pub open spec fn worst_hop(hops: Seq<TracerouteHop>) -> Option<int>
    decreases hops.len(),
{
    if hops.len() == 0 {
        None
    } else {
        let before = worst_hop(hops.drop_last());
        let h = hops.last();
        if is_lossy(h) && (before is None || h.loss_pct->0.billionths
            >= hops[before->0].loss_pct->0.billionths) {
            Some(hops.len() - 1)
        } else {
            before
        }
    }
}

/// The worst hop is a lossy one past the gateway, and no such hop loses more.
pub proof fn law_worst_hop_loses_most(hops: Seq<TracerouteHop>)
    ensures
        match worst_hop(hops) {
            Some(i) => {
                &&& 0 <= i < hops.len()
                &&& is_lossy(hops[i])
                &&& forall|j: int|
                    0 <= j < hops.len() && is_lossy(#[trigger] hops[j])
                        ==> hops[j].loss_pct->0.billionths <= hops[i].loss_pct->0.billionths
            },
            None => forall|j: int| 0 <= j < hops.len() ==> !is_lossy(#[trigger] hops[j]),
        },
    decreases hops.len(),
{
    if hops.len() > 0 {
        let d = hops.drop_last();
        law_worst_hop_loses_most(d);
        assert forall|j: int| 0 <= j < d.len() implies d[j] == #[trigger] hops[j] by {}
    }
}

pub open spec fn whole(r: Reading) -> Seq<char> {
    number::decimal_text(r.billionths as nat, 1_000_000_000, 0)
}

pub open spec fn hop_name(h: TracerouteHop) -> Seq<char> {
    match text::opt_text(h.ip) {
        Some(s) => s,
        None => "unknown"@,
    }
}

pub open spec fn route_summary(h: TracerouteHop, changes: int) -> Seq<char> {
    number::dec_int(changes) + " route changes in the last 6h, "@ + whole(h.loss_pct->0)
        + "% loss on hop "@ + number::dec_int(h.hop_no as int)
}

pub open spec fn route_detail(target: Seq<char>, h: TracerouteHop, changes: int) -> Seq<char> {
    "Your traceroute to "@ + target + " shows "@ + whole(h.loss_pct->0) + "% packet loss on hop "@
        + number::dec_int(h.hop_no as int) + " ("@ + hop_name(h) + "), and there have been "@
        + number::dec_int(changes)
        + " route changes in the last 6 hours. This points to instability upstream of your router, past your ISP's edge — not something fixable locally."@
}

/// The flag for an unstable route: a lossy hop past the gateway and at least
/// four route changes in six hours.
pub open spec fn route_flag(trace: Option<TracerouteView>, changes: int) -> Option<DiagnosticView> {
    match trace {
        Some(t) => match worst_hop(t.hops@) {
            Some(i) if changes >= 4 => Some(
                DiagnosticView {
                    key: "route_instability"@,
                    severity: "warn"@,
                    title: "Upstream route instability"@,
                    summary: route_summary(t.hops@[i], changes),
                    detail: route_detail(t.target@, t.hops@[i], changes),
                },
            ),
            _ => None,
        },
        None => None,
    }
}

fn find_worst(hops: &Vec<TracerouteHop>) -> (r: Option<usize>)
    ensures
        match r {
            Some(i) => worst_hop(hops@) == Some(i as int) && i < hops@.len() && is_lossy(
                hops@[i as int],
            ),
            None => worst_hop(hops@) is None,
        },
{
    let mut best: Option<usize> = None;
    let mut i: usize = 0;
    while i < hops.len()
        invariant
            i <= hops.len(),
            match best {
                Some(b) => worst_hop(hops@.take(i as int)) == Some(b as int) && b < i && is_lossy(
                    hops@[b as int],
                ),
                None => worst_hop(hops@.take(i as int)) is None,
            },
        decreases hops.len() - i,
    {
        assert(hops@.take(i + 1).drop_last() == hops@.take(i as int));
        if hops[i].hop_no > 1 {
            if let Some(l) = hops[i].loss_pct {
                if l.billionths >= 20_000_000_000 {
                    match best {
                        Some(b) => {
                            if let Some(w) = hops[b].loss_pct {
                                if l.billionths >= w.billionths {
                                    best = Some(i);
                                }
                            }
                        },
                        None => {
                            best = Some(i);
                        },
                    }
                }
            }
        }
        i += 1;
    }
    assert(hops@.take(hops@.len() as int) == hops@);
    best
}

pub fn check_route_instability(trace: Option<&TracerouteView>, route_change_count: i64) -> (r: Option<
    Diagnostic,
>)
    ensures
        opt_diagnostic(r) == route_flag(tables::behind(trace), route_change_count as int),
{
    let t = match trace {
        Some(t) => t,
        None => {
            return None;
        },
    };
    let i: usize = match find_worst(&t.hops) {
        Some(i) => i,
        None => {
            return None;
        },
    };
    if route_change_count < 4 {
        return None;
    }
    let hop = &t.hops[i];
    let loss: u64 = match hop.loss_pct {
        Some(l) => l.billionths as u64,
        None => 0,
    };
    let mut summary = number::i64_text(route_change_count);
    summary.append(" route changes in the last 6h, ");
    number::push_decimal(&mut summary, loss, 1_000_000_000, 0);
    summary.append("% loss on hop ");
    number::push_i64(&mut summary, hop.hop_no);
    let mut detail = "Your traceroute to ".to_string();
    detail.append(t.target.as_str());
    detail.append(" shows ");
    number::push_decimal(&mut detail, loss, 1_000_000_000, 0);
    detail.append("% packet loss on hop ");
    number::push_i64(&mut detail, hop.hop_no);
    detail.append(" (");
    match &hop.ip {
        Some(ip) => {
            detail.append(ip.as_str());
        },
        None => {
            detail.append("unknown");
        },
    }
    detail.append("), and there have been ");
    number::push_i64(&mut detail, route_change_count);
    detail.append(
        " route changes in the last 6 hours. This points to instability upstream of your router, past your ISP's edge — not something fixable locally.",
    );
    assert(summary@ == route_summary(*hop, route_change_count as int));
    assert(detail@ == route_detail(t.target@, *hop, route_change_count as int));
    Some(warning("route_instability", "Upstream route instability", summary, detail))
}

// ---------------------------------------------------------------------------
// Bufferbloat and jitter
// ---------------------------------------------------------------------------

/// The grade of a speed test, if it is poor.
pub open spec fn poor_grade(test: Option<SpeedtestRow>) -> Option<Seq<char>> {
    match test {
        Some(s) => match text::opt_text(s.bufferbloat_grade) {
            Some(g) if g == "D"@ || g == "F"@ => Some(g),
            _ => None,
        },
        None => None,
    }
}

/// The mean jitter, if it is above 20 milliseconds.
pub open spec fn high_jitter(jitter: Option<u64>) -> Option<u64> {
    match jitter {
        Some(j) if j > 20_000_000_000 => Some(j),
        _ => None,
    }
}

pub open spec fn grade_part(g: Seq<char>) -> Seq<char> {
    "bufferbloat grade "@ + g
}

pub open spec fn jitter_part(j: u64) -> Seq<char> {
    number::decimal_text(j as nat, 1_000_000_000, 0) + "ms average jitter over the last hour"@
}

pub open spec fn jitter_summary(grade: Option<Seq<char>>, jitter: Option<u64>) -> Seq<char> {
    match (grade, jitter) {
        (Some(g), Some(j)) => grade_part(g) + ", "@ + jitter_part(j),
        (Some(g), None) => grade_part(g),
        (None, Some(j)) => jitter_part(j),
        (None, None) => Seq::empty(),
    }
}

/// The flag for latency under load: a poor grade, high jitter or both.
pub open spec fn jitter_flag(test: Option<SpeedtestRow>, jitter: Option<u64>) -> Option<
    DiagnosticView,
> {
    let g = poor_grade(test);
    let j = high_jitter(jitter);
    if g is None && j is None {
        None
    } else {
        Some(
            DiagnosticView {
                key: "bufferbloat_jitter"@,
                severity: "warn"@,
                title: "Bufferbloat / high jitter"@,
                summary: jitter_summary(g, j),
                detail: jitter_summary(g, j)
                    + ". This causes choppy calls and rubber-banding in games even when the connection is technically \"up\" — often fixable with QoS/SQM on your router."@,
            },
        )
    }
}

pub fn check_bufferbloat_jitter(latest_speedtest: Option<&SpeedtestRow>, avg_jitter_ms: Option<u64>) -> (r:
    Option<Diagnostic>)
    ensures
        opt_diagnostic(r) == jitter_flag(tables::behind(latest_speedtest), avg_jitter_ms),
{
    let mut summary = String::new();
    let mut graded = false;
    if let Some(s) = latest_speedtest {
        if let Some(g) = &s.bufferbloat_grade {
            if text::same_str(g.as_str(), "D") || text::same_str(g.as_str(), "F") {
                summary.append("bufferbloat grade ");
                summary.append(g.as_str());
                graded = true;
            }
        }
    }
    let ghost g = poor_grade(tables::behind(latest_speedtest));
    assert(graded == (g is Some));
    assert(graded ==> summary@ == grade_part(g->0));
    let mut jittery = false;
    if let Some(j) = avg_jitter_ms {
        if j > 20_000_000_000 {
            if graded {
                summary.append(", ");
            }
            let ghost before = summary@;
            number::push_decimal(&mut summary, j, 1_000_000_000, 0);
            summary.append("ms average jitter over the last hour");
            assert(summary@ == before + jitter_part(j));
            jittery = true;
        }
    }
    if !graded && !jittery {
        return None;
    }
    assert(summary@ == jitter_summary(g, high_jitter(avg_jitter_ms)));
    let mut detail = summary.clone();
    detail.append(
        ". This causes choppy calls and rubber-banding in games even when the connection is technically \"up\" — often fixable with QoS/SQM on your router.",
    );
    Some(warning("bufferbloat_jitter", "Bufferbloat / high jitter", summary, detail))
}

// ---------------------------------------------------------------------------
// DNS
// ---------------------------------------------------------------------------

pub open spec fn any_failures(v: Seq<rows::StatView>) -> bool {
    exists|i: int| 0 <= i < v.len() && (#[trigger] v[i]).failures > 0
}

/// Every resolver takes more than 100 milliseconds on the mean.
pub open spec fn all_slow(v: Seq<rows::StatView>) -> bool {
    forall|i: int|
        0 <= i < v.len() ==> (#[trigger] v[i]).avg_ms is Some && v[i].avg_ms->0 > 100_000_000_000
}

pub open spec fn total_failures(v: Seq<rows::StatView>) -> nat
    decreases v.len(),
{
    if v.len() == 0 {
        0
    } else {
        total_failures(v.drop_last()) + v.last().failures as nat
    }
}

pub open spec fn resolver_line(s: rows::StatView) -> Seq<char> {
    s.resolver + " avg "@ + (match s.avg_ms {
        Some(a) => number::decimal_text(a as nat, 1_000_000_000, 1) + "ms"@,
        None => "n/a"@,
    }) + " ("@ + number::dec(s.failures as nat) + " failures)"@
}

/// The resolvers' lines, separated by commas.
pub open spec fn breakdown(v: Seq<rows::StatView>) -> Seq<char>
    decreases v.len(),
{
    if v.len() == 0 {
        Seq::empty()
    } else if v.len() == 1 {
        resolver_line(v[0])
    } else {
        breakdown(v.drop_last()) + ", "@ + resolver_line(v.last())
    }
}

pub open spec fn dns_summary(v: Seq<rows::StatView>) -> Seq<char> {
    if any_failures(v) {
        number::dec(total_failures(v)) + " DNS lookup failures in the last hour"@
    } else {
        "All compared DNS resolvers are slow (>100ms) in the last hour"@
    }
}

/// The flag for DNS: some lookup failed, or every resolver is slow.
pub open spec fn dns_flag(v: Seq<rows::StatView>) -> Option<DiagnosticView> {
    if v.len() == 0 || (!any_failures(v) && !all_slow(v)) {
        None
    } else {
        Some(
            DiagnosticView {
                key: "dns_degraded"@,
                severity: "warn"@,
                title: "DNS resolver degraded"@,
                summary: dns_summary(v),
                detail: "Over the last hour: "@ + breakdown(v)
                    + ". Slow or failing DNS lookups add delay before every new connection, which can look like general page-load lag."@,
            },
        )
    }
}

fn push_resolver(out: &mut String, s: &DnsResolverStat)
    ensures
        final(out)@ == old(out)@ + resolver_line(s@),
{
    out.append(s.resolver.as_str());
    out.append(" avg ");
    match s.avg_ms {
        Some(a) => {
            number::push_decimal(out, a, 1_000_000_000, 1);
            out.append("ms");
        },
        None => {
            out.append("n/a");
        },
    }
    out.append(" (");
    number::push_u64(out, s.failures);
    out.append(" failures)");
    assert(out@ == old(out)@ + resolver_line(s@));
}

pub fn check_dns_degraded(stats: &Vec<DnsResolverStat>) -> (r: Option<Diagnostic>)
    ensures
        opt_diagnostic(r) == dns_flag(rows::stat_views(stats@)),
{
    if stats.len() == 0 {
        return None;
    }
    let ghost v = rows::stat_views(stats@);
    let mut failing = false;
    let mut slow = true;
    let mut sum: u128 = 0;
    let mut detail = "Over the last hour: ".to_string();
    let ghost head = detail@;
    let mut i: usize = 0;
    assert(detail@ == head + breakdown(v.take(0)));
    while i < stats.len()
        invariant
            i <= stats.len(),
            v == rows::stat_views(stats@),
            failing == any_failures(v.take(i as int)),
            slow == all_slow(v.take(i as int)),
            sum == total_failures(v.take(i as int)),
            sum <= i * 0xffff_ffff_ffff_ffff,
            detail@ == head + breakdown(v.take(i as int)),
        decreases stats.len() - i,
    {
        let ghost before = v.take(i as int);
        let ghost after = v.take(i + 1);
        assert(after.drop_last() == before);
        assert(after.last() == v[i as int]);
        assert(i * 0xffff_ffff_ffff_ffff + 0xffff_ffff_ffff_ffff <= u128::MAX) by (nonlinear_arith)
            requires
                0 <= i <= 0xffff_ffff_ffff_fffe,
        ;
        let s = &stats[i];
        assert(after[i as int] == s@);
        proof {
            assert forall|k: int| 0 <= k < before.len() implies before[k] == #[trigger] after[k] by {}
            if any_failures(before) {
                let k = choose|k: int| 0 <= k < before.len() && (#[trigger] before[k]).failures > 0;
                assert(after[k].failures > 0);
            }
            if s.failures > 0 {
                assert(after[i as int].failures > 0);
            }
            if any_failures(after) {
                let k = choose|k: int| 0 <= k < after.len() && (#[trigger] after[k]).failures > 0;
                if k < before.len() {
                    assert(before[k].failures > 0);
                }
            }
            if all_slow(after) {
                assert(after[i as int].avg_ms is Some);
                assert forall|k: int| 0 <= k < before.len() implies (#[trigger] before[k]).avg_ms is Some
                    && before[k].avg_ms->0 > 100_000_000_000 by {
                    assert(after[k].avg_ms is Some);
                }
            }
        }
        if s.failures > 0 {
            failing = true;
        }
        match s.avg_ms {
            Some(a) => {
                if a <= 100_000_000_000 {
                    slow = false;
                    assert(!all_slow(after)) by {
                        assert(after[i as int].avg_ms == Some(a));
                    }
                }
            },
            None => {
                slow = false;
                assert(!all_slow(after)) by {
                    assert(after[i as int].avg_ms is None);
                }
            },
        }
        sum = sum + s.failures as u128;
        if i > 0 {
            detail.append(", ");
        }
        push_resolver(&mut detail, s);
        proof {
            if i > 0 {
                assert(after.len() == i + 1);
                assert(detail@ == head + (breakdown(before) + ", "@ + resolver_line(s@)));
            } else {
                assert(before.len() == 0);
                assert(after[0] == v[0]);
                assert(detail@ == head + resolver_line(s@));
            }
        }
        i += 1;
    }
    assert(v.take(stats@.len() as int) == v);
    if !failing && !slow {
        return None;
    }
    let summary = if failing {
        let mut t = String::new();
        number::push_u128(&mut t, sum);
        t.append(" DNS lookup failures in the last hour");
        assert(t@ == number::dec(sum as nat) + " DNS lookup failures in the last hour"@);
        t
    } else {
        "All compared DNS resolvers are slow (>100ms) in the last hour".to_string()
    };
    detail.append(
        ". Slow or failing DNS lookups add delay before every new connection, which can look like general page-load lag.",
    );
    Some(warning("dns_degraded", "DNS resolver degraded", summary, detail))
}

// ---------------------------------------------------------------------------
// All checks
// ---------------------------------------------------------------------------

/// How many samples were taken from `from` to `to`, both included.
pub open spec fn samples_between(v: Seq<ConnectivitySample>, from: i64, to: i64) -> nat
    decreases v.len(),
{
    if v.len() == 0 {
        0
    } else if from <= v.last().ts <= to {
        samples_between(v.drop_last(), from, to) + 1
    } else {
        samples_between(v.drop_last(), from, to)
    }
}

/// What a closed outage is put down to: the internet, if the device was sampling
/// throughout, or else the device.
pub open spec fn cause_of(v: Seq<ConnectivitySample>, ts_start: i64, ts_end: i64) -> Seq<char> {
    if is_real_outage(ts_end - ts_start, samples_between(v, ts_start, ts_end) as int) {
        rows::OUTAGE_CAUSE_REAL@
    } else {
        rows::OUTAGE_CAUSE_GAP@
    }
}

/// The outage with this identifier was closed and put down to a cause; the
/// others are as they were.
pub open spec fn closed_as(
    old_rows: Seq<Outage>,
    new_rows: Seq<Outage>,
    id: i64,
    ts_end: i64,
    reconnect_ms: Option<i64>,
    cause: Seq<char>,
) -> bool {
    &&& new_rows.len() == old_rows.len()
    &&& forall|i: int|
        0 <= i < new_rows.len() ==> if old_rows[i].id == id {
            &&& (#[trigger] new_rows[i]) == (Outage {
                cause: new_rows[i].cause,
                ..tables::closed(old_rows[i], ts_end, reconnect_ms)
            })
            &&& rows::is_put_down_to(new_rows[i], cause)
        } else {
            new_rows[i] == old_rows[i]
        }
}

/// A time during an outage in which the device was asleep or off and which ended
/// since a time, or within two minutes of it.
pub open spec fn is_near_gap(v: Seq<Outage>, since: i64, ts: i64) -> bool {
    exists|i: int|
        0 <= i < v.len() && rows::is_put_down_to(#[trigger] v[i], rows::OUTAGE_CAUSE_GAP@)
            && v[i].ts_end is Some && v[i].ts_end->0 >= since && v[i].ts_start - 120_000 <= ts
            <= v[i].ts_end->0 + 120_000
}

/// A route change since a time that no waking of the device explains.
pub open spec fn is_route_change(e: Event, v: Seq<Outage>, since: i64) -> bool {
    e.ts >= since && e.kind@ == "route_change"@ && !is_near_gap(v, since, e.ts)
}

/// How many route changes came since a time, without those near a gap.
pub open spec fn route_changes(events: Seq<Event>, v: Seq<Outage>, since: i64) -> nat
    decreases events.len(),
{
    if events.len() == 0 {
        0
    } else if is_route_change(events.last(), v, since) {
        route_changes(events.drop_last(), v, since) + 1
    } else {
        route_changes(events.drop_last(), v, since)
    }
}

/// A closed outage since a time that was put down to the internet.
pub open spec fn is_counted(o: Outage, since: i64) -> bool {
    &&& o.ts_start >= since
    &&& o.ts_end is Some
    &&& rows::is_put_down_to(o, rows::OUTAGE_CAUSE_REAL@)
}

/// How many real outages came since a time.
pub open spec fn real_outages(v: Seq<Outage>, since: i64) -> nat
    decreases v.len(),
{
    if v.len() == 0 {
        0
    } else if is_counted(v.last(), since) {
        real_outages(v.drop_last(), since) + 1
    } else {
        real_outages(v.drop_last(), since)
    }
}

/// A count as a signed number, held at the greatest.
pub open spec fn held(n: nat) -> i64 {
    if n <= i64::MAX {
        n as i64
    } else {
        i64::MAX
    }
}

fn hold(n: u64) -> (r: i64)
    ensures
        r == held(n as nat),
{
    if n <= 0x7fff_ffff_ffff_ffff {
        n as i64
    } else {
        0x7fff_ffff_ffff_ffff
    }
}

/// The flag that holds after another one.
pub open spec fn with_flag(v: Seq<DiagnosticView>, d: Option<DiagnosticView>) -> Seq<DiagnosticView> {
    match d {
        Some(x) => v.push(x),
        None => v,
    }
}

pub open spec fn views(v: Seq<Diagnostic>) -> Seq<DiagnosticView> {
    v.map_values(|d: Diagnostic| d@)
}

fn add_flag(out: &mut Vec<Diagnostic>, d: Option<Diagnostic>)
    ensures
        views(final(out)@) == with_flag(views(old(out)@), opt_diagnostic(d)),
{
    if let Some(x) = d {
        out.push(x);
        assert(views(out@) == views(old(out)@).push(x@));
    }
}

/// The flags of all checks, in the order of the checks: real outages of the last 24
/// hours, route changes of the last six, the last speed test with the jitter of the
/// last hour, and the resolvers over the last hour.
pub open spec fn flags(s: Store, now: i64) -> Seq<DiagnosticView> {
    let a = with_flag(
        Seq::empty(),
        route_flag(
            tables::newest_in(s.traceroutes@),
            held(
                route_changes(
                    s.events@,
                    s.outages@,
                    (now - 21_600_000) as i64,
                ),
            ) as int,
        ),
    );
    let b = with_flag(
        a,
        disconnects_flag(
            held(real_outages(s.outages@, (now - 86_400_000) as i64)) as int,
        ),
    );
    let c = with_flag(
        b,
        jitter_flag(
            tables::newest_in(s.speedtests@),
            crate::stats::mean(
                summary::values_since(
                    s.connectivity@,
                    (now - 3_600_000) as i64,
                    rows::Metric::Jitter,
                ),
            ),
        ),
    );
    with_flag(c, dns_flag(summary::comparison(s.dns@, (now - 3_600_000) as i64)))
}

impl Store {
    /// How many samples were taken from `from` to `to`, both included.
    pub fn sample_count_between(&self, from: i64, to: i64) -> (r: u64)
        ensures
            r == samples_between(self.connectivity@, from, to),
    {
        let mut n: u64 = 0;
        let mut i: usize = 0;
        while i < self.connectivity.len()
            invariant
                i <= self.connectivity.len(),
                n <= i,
                n == samples_between(self.connectivity@.take(i as int), from, to),
            decreases self.connectivity.len() - i,
        {
            assert(self.connectivity@.take(i + 1).drop_last() == self.connectivity@.take(i as int));
            let ts: i64 = self.connectivity[i].ts;
            if from <= ts && ts <= to {
                n += 1;
            }
            i += 1;
        }
        assert(self.connectivity@.take(self.connectivity@.len() as int) == self.connectivity@);
        n
    }

    /// Closes the outage with this identifier, which began at `ts_start`, and
    /// puts it down to the internet or to the device by how many samples were
    /// taken in between. Returns whether it was a real one.
    pub fn close_outage_classified(
        &mut self,
        id: i64,
        ts_start: i64,
        ts_end: i64,
        reconnect_ms: Option<i64>,
    ) -> (r: bool)
        requires
            old(self).wf(),
            i64::MIN <= ts_end - ts_start <= i64::MAX,
            forall|i: int|
                0 <= i < old(self).outages@.len() && (#[trigger] old(self).outages@[i]).id == id
                    ==> i64::MIN <= ts_end - old(self).outages@[i].ts_start <= i64::MAX,
        ensures
            final(self).wf(),
            r == is_real_outage(
                ts_end - ts_start,
                samples_between(old(self).connectivity@, ts_start, ts_end) as int,
            ),
            closed_as(
                old(self).outages@,
                final(self).outages@,
                id,
                ts_end,
                reconnect_ms,
                cause_of(old(self).connectivity@, ts_start, ts_end),
            ),
            *final(self) == (Store { outages: final(self).outages, ..*old(self) }),
    {
        let actual: u64 = self.sample_count_between(ts_start, ts_end);
        let is_real = classify_real_outage(ts_end - ts_start, hold(actual));
        let cause = if is_real {
            rows::OUTAGE_CAUSE_REAL
        } else {
            rows::OUTAGE_CAUSE_GAP
        };
        let ghost all = self.outages@;
        self.close_outage(id, ts_end, reconnect_ms);
        let ghost mid = *self;
        let ghost shut = self.outages@;
        let mut i: usize = 0;
        while i < self.outages.len()
            invariant
                i <= self.outages.len(),
                *self == (Store { outages: self.outages, ..mid }),
                self.outages@.len() == shut.len(),
                forall|k: int|
                    0 <= k < i ==> if shut[k].id == id {
                        &&& (#[trigger] self.outages@[k]) == (Outage {
                            cause: self.outages@[k].cause,
                            ..shut[k]
                        })
                        &&& rows::is_put_down_to(self.outages@[k], cause@)
                    } else {
                        self.outages@[k] == shut[k]
                    },
                forall|k: int| i <= k < shut.len() ==> self.outages@[k] == shut[k],
            decreases self.outages.len() - i,
        {
            assert(self.outages@[i as int] == shut[i as int]);
            if self.outages[i].id == id {
                self.outages[i].cause = Some(cause.to_string());
            }
            i += 1;
        }
        proof {
            assert(shut == tables::with_closed(all, id, ts_end, reconnect_ms));
            assert forall|k: int| 0 <= k < self.outages@.len() implies if all[k].id == id {
                &&& (#[trigger] self.outages@[k]) == (Outage {
                    cause: self.outages@[k].cause,
                    ..tables::closed(all[k], ts_end, reconnect_ms)
                })
                &&& rows::is_put_down_to(self.outages@[k], cause@)
            } else {
                self.outages@[k] == all[k]
            } by {
                assert(shut[k].id == all[k].id);
            }
            assert(crate::store::outage_ids(self.outages@) == crate::store::outage_ids(shut));
        }
        is_real
    }

    fn near_gap(&self, since: i64, ts: i64) -> (r: bool)
        ensures
            r == is_near_gap(self.outages@, since, ts),
    {
        let mut i: usize = 0;
        while i < self.outages.len()
            invariant
                i <= self.outages.len(),
                !is_near_gap(self.outages@.take(i as int), since, ts),
            decreases self.outages.len() - i,
        {
            let ghost before = self.outages@.take(i as int);
            let ghost after = self.outages@.take(i + 1);
            let o = &self.outages[i];
            if let Some(end) = o.ts_end {
                if o.put_down_to(rows::OUTAGE_CAUSE_GAP) && end >= since && o.ts_start as i128
                    - 120_000 <= ts as i128 && ts as i128 <= end as i128 + 120_000 {
                    assert(rows::is_put_down_to(self.outages@[i as int], rows::OUTAGE_CAUSE_GAP@));
                    return true;
                }
            }
            proof {
                if is_near_gap(after, since, ts) {
                    let k = choose|k: int|
                        0 <= k < after.len() && rows::is_put_down_to(
                            #[trigger] after[k],
                            rows::OUTAGE_CAUSE_GAP@,
                        ) && after[k].ts_end is Some && after[k].ts_end->0 >= since
                            && after[k].ts_start - 120_000 <= ts <= after[k].ts_end->0 + 120_000;
                    if k < i {
                        assert(before[k] == after[k]);
                    }
                }
            }
            i += 1;
        }
        assert(self.outages@.take(self.outages@.len() as int) == self.outages@);
        false
    }

    /// How many route changes came since a time. A device that wakes up almost
    /// always reports one, so those near a gap are left out.
    pub fn route_change_count_excluding_gaps(&self, since: i64) -> (r: u64)
        ensures
            r == route_changes(self.events@, self.outages@, since),
    {
        let mut n: u64 = 0;
        let mut i: usize = 0;
        while i < self.events.len()
            invariant
                i <= self.events.len(),
                n <= i,
                n == route_changes(self.events@.take(i as int), self.outages@, since),
            decreases self.events.len() - i,
        {
            assert(self.events@.take(i + 1).drop_last() == self.events@.take(i as int));
            let e = &self.events[i];
            if e.ts >= since && text::same_str(e.kind.as_str(), "route_change") && !self.near_gap(
                since,
                e.ts,
            ) {
                n += 1;
            }
            i += 1;
        }
        assert(self.events@.take(self.events@.len() as int) == self.events@);
        n
    }

    /// How many real outages came since a time: those that were put down to the
    /// internet when they closed.
    pub fn real_outage_count(&self, since: i64) -> (r: u64)
        ensures
            r == real_outages(self.outages@, since),
    {
        let mut n: u64 = 0;
        let mut i: usize = 0;
        while i < self.outages.len()
            invariant
                i <= self.outages.len(),
                n <= i,
                n == real_outages(self.outages@.take(i as int), since),
            decreases self.outages.len() - i,
        {
            assert(self.outages@.take(i + 1).drop_last() == self.outages@.take(i as int));
            let o = &self.outages[i];
            if o.ts_start >= since && o.ts_end.is_some() && o.put_down_to(rows::OUTAGE_CAUSE_REAL) {
                n += 1;
            }
            i += 1;
        }
        assert(self.outages@.take(self.outages@.len() as int) == self.outages@);
        n
    }

    /// Runs every check. Each gives at most one flag, on its own; a check whose
    /// data is missing gives none.
    pub fn diagnostics(&self, now: i64) -> (r: Vec<Diagnostic>)
        requires
            now >= i64::MIN + 86_400_000,
        ensures
            views(r@) == flags(*self, now),
    {
        let mut out: Vec<Diagnostic> = Vec::new();
        assert(views(out@) == Seq::<DiagnosticView>::empty());
        let trace = self.latest_traceroute();
        let changes: i64 = hold(
            self.route_change_count_excluding_gaps(now - 21_600_000),
        );
        add_flag(&mut out, check_route_instability(trace, changes));
        let outages: i64 = hold(self.real_outage_count(now - 86_400_000));
        add_flag(&mut out, check_frequent_disconnects(outages));
        let test = self.latest_speedtest();
        let hour = self.reliability_since(now - 3_600_000);
        add_flag(&mut out, check_bufferbloat_jitter(test, hour.avg_jitter_ms));
        let stats = self.dns_comparison(now - 3_600_000);
        add_flag(&mut out, check_dns_degraded(&stats));
        out
    }
}

/// Samples are counted one by one: those from the start of the span to its end,
/// both included, count one each, and no other counts.
pub proof fn law_samples_of_the_span_count(
    a: Seq<ConnectivitySample>,
    b: Seq<ConnectivitySample>,
    row: ConnectivitySample,
    from: i64,
    to: i64,
)
    ensures
        samples_between(a + b, from, to) == samples_between(a, from, to)
            + samples_between(b, from, to),
        samples_between(seq![row], from, to) == (if from <= row.ts && row.ts <= to {
            1nat
        } else {
            0nat
        }),
        samples_between(Seq::<ConnectivitySample>::empty(), from, to) == 0,
    decreases b.len(),
{
    reveal_with_fuel(samples_between, 2);
    assert(seq![row].drop_last() == Seq::<ConnectivitySample>::empty());
    if b.len() == 0 {
        assert(a + b == a);
    } else {
        law_samples_of_the_span_count(a, b.drop_last(), row, from, to);
        assert((a + b).drop_last() == a + b.drop_last());
        assert(samples_between(a + b, from, to) == samples_between(a, from, to)
            + samples_between(b, from, to));
    }
}

/// A sample before the start of an outage or after its end changes neither how many
/// samples were taken during it nor what it is put down to.
pub proof fn law_samples_outside_an_outage_do_not_matter(
    v: Seq<ConnectivitySample>,
    i: int,
    row: ConnectivitySample,
    start: i64,
    end: i64,
)
    requires
        0 <= i <= v.len(),
        row.ts < start || end < row.ts,
    ensures
        samples_between(v.insert(i, row), start, end) == samples_between(v, start, end),
        cause_of(v.insert(i, row), start, end) == cause_of(v, start, end),
{
    let (a, b) = (v.take(i), v.skip(i));
    assert(v == a + b);
    assert(v.insert(i, row) == a + seq![row] + b);
    law_samples_of_the_span_count(a, b, row, start, end);
    law_samples_of_the_span_count(a + seq![row], b, row, start, end);
    law_samples_of_the_span_count(a, seq![row], row, start, end);
}

/// An outage is put down to the device exactly if it took time and less than half of
/// the samples were taken that one every 15 seconds would give, and to the internet
/// otherwise.
pub proof fn law_gaps_lack_half_of_the_samples(v: Seq<ConnectivitySample>, start: i64, end: i64)
    ensures
        cause_of(v, start, end) == "device was asleep/off"@ <==> end > start && 2 * 15_000
            * samples_between(v, start, end) < end - start,
        cause_of(v, start, end) == "all internet targets unreachable"@ <==> !(end > start && 2
            * 15_000 * samples_between(v, start, end) < end - start),
{
    reveal_strlit("all internet targets unreachable");
    reveal_strlit("device was asleep/off");
    assert("all internet targets unreachable"@.len() != "device was asleep/off"@.len());
}

/// Outages are counted one by one: one that began in the window, is over and was put
/// down to the internet counts one, and no other counts.
pub proof fn law_real_outages_of_the_window_count(
    a: Seq<Outage>,
    b: Seq<Outage>,
    row: Outage,
    since: i64,
)
    ensures
        real_outages(a + b, since) == real_outages(a, since) + real_outages(b, since),
        real_outages(seq![row], since) == (if row.ts_start >= since && row.ts_end is Some
            && text::opt_text(row.cause) == Some(
            "all internet targets unreachable"@,
        ) {
            1nat
        } else {
            0nat
        }),
        real_outages(Seq::<Outage>::empty(), since) == 0,
    decreases b.len(),
{
    reveal_with_fuel(real_outages, 2);
    assert(seq![row].drop_last() == Seq::<Outage>::empty());
    if b.len() == 0 {
        assert(a + b == a);
    } else {
        law_real_outages_of_the_window_count(a, b.drop_last(), row, since);
        assert((a + b).drop_last() == a + b.drop_last());
        assert(real_outages(a + b, since) == real_outages(a, since) + real_outages(b, since));
    }
}

/// An outage that began before the window, wherever it stands among the others,
/// never changes the number of real outages in it nor the flag that is raised for
/// them, and without any other the number is nought.
pub proof fn law_older_outages_do_not_matter(v: Seq<Outage>, i: int, row: Outage, since: i64)
    requires
        0 <= i <= v.len(),
        row.ts_start < since,
    ensures
        real_outages(v.insert(i, row), since) == real_outages(v, since),
        disconnects_flag(real_outages(v.insert(i, row), since) as int) == disconnects_flag(
            real_outages(v, since) as int,
        ),
        (forall|k: int| 0 <= k < v.len() ==> (#[trigger] v[k]).ts_start < since) ==> real_outages(
            v,
            since,
        ) == 0,
    decreases v.len(),
{
    let (a, b) = (v.take(i), v.skip(i));
    assert(v == a + b);
    assert(v.insert(i, row) == a + seq![row] + b);
    law_real_outages_of_the_window_count(a, b, row, since);
    law_real_outages_of_the_window_count(a + seq![row], b, row, since);
    law_real_outages_of_the_window_count(a, seq![row], row, since);
    if forall|k: int| 0 <= k < v.len() ==> (#[trigger] v[k]).ts_start < since {
        if v.len() > 0 {
            let d = v.drop_last();
            assert forall|k: int| 0 <= k < d.len() implies (#[trigger] d[k]).ts_start < since by {
                assert(d[k] == v[k]);
            }
            law_older_outages_do_not_matter(d, 0, row, since);
            assert(v[v.len() - 1].ts_start < since);
        }
    }
}

/// Route changes are counted one by one: an event of that kind in the window counts
/// one, unless it comes during an outage in which the device was asleep or off and
/// that ended in the window, or within two minutes of it.
pub proof fn law_route_changes_of_the_window_count(
    a: Seq<Event>,
    b: Seq<Event>,
    row: Event,
    v: Seq<Outage>,
    since: i64,
)
    ensures
        route_changes(a + b, v, since) == route_changes(a, v, since) + route_changes(b, v, since),
        route_changes(seq![row], v, since) == (if row.ts >= since && row.kind@ == "route_change"@ && !(exists|i: int|
            0 <= i < v.len() && text::opt_text((#[trigger] v[i]).cause) == Some(
                "device was asleep/off"@,
            ) && v[i].ts_end is Some && v[i].ts_end->0 >= since && v[i].ts_start - 120_000 <= row.ts
                && row.ts <= v[i].ts_end->0 + 120_000) {
            1nat
        } else {
            0nat
        }),
        route_changes(Seq::<Event>::empty(), v, since) == 0,
    decreases b.len(),
{
    reveal_with_fuel(route_changes, 2);
    assert(seq![row].drop_last() == Seq::<Event>::empty());
    if b.len() == 0 {
        assert(a + b == a);
    } else {
        law_route_changes_of_the_window_count(a, b.drop_last(), row, v, since);
        assert((a + b).drop_last() == a + b.drop_last());
        assert(route_changes(a + b, v, since) == route_changes(a, v, since)
            + route_changes(b, v, since));
    }
}

/// When each flag is raised: for three real outages; for four route changes if a hop
/// past the gateway loses at least 20 percent; for a grade of D or F or more than
/// 20 milliseconds of jitter; and for lookups of which any failed, or if every
/// resolver takes more than 100 milliseconds.
pub proof fn law_flags_are_raised_at_their_thresholds(
    count: int,
    trace: TracerouteView,
    changes: int,
    test: Option<SpeedtestRow>,
    jitter: Option<u64>,
    v: Seq<rows::StatView>,
)
    ensures
        disconnects_flag(count) is Some <==> count >= 3,
        route_flag(None, changes) is None,
        route_flag(Some(trace), changes) is Some <==> changes >= 4 && exists|i: int|
            0 <= i < trace.hops@.len() && (#[trigger] trace.hops@[i]).hop_no > 1
                && trace.hops@[i].loss_pct is Some && trace.hops@[i].loss_pct->0.billionths
                >= 20_000_000_000,
        jitter_flag(test, jitter) is Some <==> (test is Some && (text::opt_text(
            test->0.bufferbloat_grade,
        ) == Some("D"@) || text::opt_text(test->0.bufferbloat_grade) == Some("F"@))) || (
        jitter is Some && jitter->0 > 20_000_000_000),
        dns_flag(v) is Some <==> v.len() > 0 && ((exists|i: int|
            0 <= i < v.len() && (#[trigger] v[i]).failures > 0) || (forall|i: int|
            0 <= i < v.len() ==> (#[trigger] v[i]).avg_ms is Some && v[i].avg_ms->0
                > 100_000_000_000)),
{
    let hops = trace.hops@;
    law_worst_hop_loses_most(hops);
    match worst_hop(hops) {
        Some(i) => {
            assert(hops[i].hop_no > 1);
        },
        None => {
            assert forall|i: int| 0 <= i < hops.len() implies !((#[trigger] hops[i]).hop_no > 1
                && hops[i].loss_pct is Some
                    && hops[i].loss_pct->0.billionths >= 20_000_000_000) by {
                assert(!is_lossy(hops[i]));
            }
        },
    }
}

/// What each flag says of what raised it: how many outages or route changes, the
/// worst hop's number, address and target, the grade and the jitter, and how many
/// lookups failed of all resolvers together.
pub proof fn law_flags_name_their_reasons(
    count: int,
    trace: TracerouteView,
    changes: int,
    grade: Seq<char>,
    jitter: u64,
)
    ensures
        disconnects_flag(count) is Some ==> {
            let f = disconnects_flag(count)->0;
            &&& f.key == "frequent_disconnects"@
            &&& f.severity == "warn"@
            &&& f.summary == number::dec_int(count) + " real outages in the last 24h"@
            &&& text::starts(f.detail, number::dec_int(count))
        },
        route_flag(Some(trace), changes) is Some ==> {
            let f = route_flag(Some(trace), changes)->0;
            let h = trace.hops@[worst_hop(trace.hops@)->0];
            &&& f.key == "route_instability"@
            &&& f.severity == "warn"@
            &&& f.summary == number::dec_int(changes) + " route changes in the last 6h, "@
                + number::decimal_text(h.loss_pct->0.billionths as nat, 1_000_000_000, 0)
                + "% loss on hop "@ + number::dec_int(h.hop_no as int)
            &&& text::starts(f.detail, "Your traceroute to "@ + trace.target@)
        },
        jitter_summary(Some(grade), Some(jitter)) == "bufferbloat grade "@ + grade + ", "@
            + jitter_summary(None, Some(jitter)),
        jitter_summary(Some(grade), None) == "bufferbloat grade "@ + grade,
        jitter_summary(None, Some(jitter)) == number::decimal_text(
            jitter as nat,
            1_000_000_000,
            0,
        ) + "ms average jitter over the last hour"@,
{
    if let Some(f) = disconnects_flag(count) {
        let n = number::dec_int(count);
        assert(f.detail.take(n.len() as int) == n);
    }
    if let Some(f) = route_flag(Some(trace), changes) {
        let n = "Your traceroute to "@ + trace.target@;
        assert(f.detail.take(n.len() as int) == n);
    }
}

/// The failures of all resolvers add up.
pub proof fn law_failures_of_all_resolvers_add_up(
    a: Seq<rows::StatView>,
    b: Seq<rows::StatView>,
    row: rows::StatView,
)
    ensures
        total_failures(a + b) == total_failures(a) + total_failures(b),
        total_failures(seq![row]) == (row.failures as nat),
        total_failures(Seq::<rows::StatView>::empty()) == 0,
    decreases b.len(),
{
    reveal_with_fuel(total_failures, 2);
    assert(seq![row].drop_last() == Seq::<rows::StatView>::empty());
    if b.len() == 0 {
        assert(a + b == a);
    } else {
        law_failures_of_all_resolvers_add_up(a, b.drop_last(), row);
        assert((a + b).drop_last() == a + b.drop_last());
        assert(total_failures(a + b) == total_failures(a) + total_failures(b));
    }
}

/// What is older than a check looks back changes no flag: outages that began more
/// than 24 hours ago, events of more than six hours ago, and samples and lookups of
/// more than an hour ago.
pub proof fn law_flags_look_back_so_far(
    s: Store,
    t: Store,
    now: i64,
    outage: Outage,
    event: Event,
    sample: ConnectivitySample,
    lookup: rows::DnsSample,
)
    requires
        now >= i64::MIN + 86_400_000,
        outage.ts_start < now - 86_400_000,
        outage.ts_end is Some ==> outage.ts_end->0 < now - 21_600_000,
        event.ts < now - 21_600_000,
        sample.ts < now - 3_600_000,
        lookup.ts < now - 3_600_000,
        t.outages@ == s.outages@.push(outage),
        t.events@ == s.events@.push(event),
        t.connectivity@ == s.connectivity@.push(sample),
        t.dns@ == s.dns@.push(lookup),
        t.traceroutes@ == s.traceroutes@,
        t.speedtests@ == s.speedtests@,
    ensures
        flags(t, now) == flags(s, now),
{
    let day = (now - 86_400_000) as i64;
    let six = (now - 21_600_000) as i64;
    let hour = (now - 3_600_000) as i64;
    assert(t.outages@.drop_last() == s.outages@);
    assert(t.events@.drop_last() == s.events@);
    assert(real_outages(t.outages@, day) == real_outages(s.outages@, day));
    assert(route_changes(t.events@, t.outages@, six) == route_changes(s.events@, t.outages@, six));
    lemma_gap_before_the_window(s.events@, s.outages@, outage, six);
    summary::law_older_samples_change_no_figure(s.connectivity@, sample, s.outages@, hour);
    summary::law_older_lookups_change_no_figure(s.dns@, lookup, hour);
}

proof fn lemma_gap_before_the_window(events: Seq<Event>, v: Seq<Outage>, o: Outage, since: i64)
    requires
        o.ts_end is Some ==> o.ts_end->0 < since,
    ensures
        route_changes(events, v.push(o), since) == route_changes(events, v, since),
    decreases events.len(),
{
    if events.len() > 0 {
        lemma_gap_before_the_window(events.drop_last(), v, o, since);
        let ts = events.last().ts;
        let w = v.push(o);
        if is_near_gap(v, since, ts) {
            let i = choose|i: int|
                0 <= i < v.len() && rows::is_put_down_to(#[trigger] v[i], rows::OUTAGE_CAUSE_GAP@)
                    && v[i].ts_end is Some && v[i].ts_end->0 >= since && v[i].ts_start - 120_000
                    <= ts <= v[i].ts_end->0 + 120_000;
            assert(w[i] == v[i]);
        }
        if is_near_gap(w, since, ts) {
            let i = choose|i: int|
                0 <= i < w.len() && rows::is_put_down_to(#[trigger] w[i], rows::OUTAGE_CAUSE_GAP@)
                    && w[i].ts_end is Some && w[i].ts_end->0 >= since && w[i].ts_start - 120_000
                    <= ts <= w[i].ts_end->0 + 120_000;
            assert(w[i] == v[i]);
        }
    }
}

/// A store with three real outages in the last 24 hours is flagged for them, and one
/// with fewer is not; likewise each other check decides on its own.
pub proof fn law_each_check_flags_on_its_own(s: Store, now: i64)
    requires
        now >= i64::MIN + 86_400_000,
    ensures
        ({
            let keys = flags(s, now).map_values(|d: DiagnosticView| d.key);
            let jitter = crate::stats::mean(
                summary::values_since(s.connectivity@, (now - 3_600_000) as i64, rows::Metric::Jitter),
            );
            &&& keys.contains("frequent_disconnects"@) <==> real_outages(
                s.outages@,
                (now - 24 * 3_600_000) as i64,
            ) >= 3
            &&& keys.contains("route_instability"@) <==> route_flag(
                tables::newest_in(s.traceroutes@),
                held(
                    route_changes(s.events@, s.outages@, (now - 6 * 3_600_000) as i64),
                ) as int,
            ) is Some
            &&& keys.contains("bufferbloat_jitter"@) <==> jitter_flag(
                tables::newest_in(s.speedtests@),
                jitter,
            ) is Some
            &&& keys.contains("dns_degraded"@) <==> dns_flag(
                summary::comparison(s.dns@, (now - 3_600_000) as i64),
            ) is Some
        }),
{
    reveal_strlit("frequent_disconnects");
    reveal_strlit("route_instability");
    reveal_strlit("bufferbloat_jitter");
    reveal_strlit("dns_degraded");
    let v = flags(s, now);
    let keys = v.map_values(|d: DiagnosticView| d.key);
    let jitter = crate::stats::mean(
        summary::values_since(s.connectivity@, (now - 3_600_000) as i64, rows::Metric::Jitter),
    );
    let a = route_flag(
        tables::newest_in(s.traceroutes@),
        held(route_changes(s.events@, s.outages@, (now - 21_600_000) as i64)) as int,
    );
    let b = disconnects_flag(held(real_outages(s.outages@, (now - 86_400_000) as i64)) as int);
    let c = jitter_flag(tables::newest_in(s.speedtests@), jitter);
    let d = dns_flag(summary::comparison(s.dns@, (now - 3_600_000) as i64));
    let va = with_flag(Seq::empty(), a);
    let vb = with_flag(va, b);
    let vc = with_flag(vb, c);
    assert(v == with_flag(vc, d));
    let (ka, kb, kc, kd) = (
        "route_instability"@,
        "frequent_disconnects"@,
        "bufferbloat_jitter"@,
        "dns_degraded"@,
    );
    assert(ka[0] == 'r' && kb[0] == 'f' && kc[0] == 'b' && kd[0] == 'd');
    if a is Some {
        assert(keys[0] == ka);
    }
    if b is Some {
        assert(keys[va.len() as int] == kb);
    }
    if c is Some {
        assert(keys[vb.len() as int] == kc);
    }
    if d is Some {
        assert(keys[vc.len() as int] == kd);
    }
    assert forall|i: int| 0 <= i < keys.len() implies (#[trigger] keys[i] == ka && a is Some) || (
    keys[i] == kb && b is Some) || (keys[i] == kc && c is Some) || (keys[i] == kd && d is Some) by {
        if i < va.len() {
        } else if i < vb.len() {
        } else if i < vc.len() {
        }
    }
}

/// The worst hop is past the first and loses at least a fifth; none of those loses more, and
/// of two that lose as much it is the later one.
pub proof fn law_worst_hop_is_past_the_first(hops: Seq<TracerouteHop>)
    ensures
        match worst_hop(hops) {
            Some(i) => {
                &&& 0 <= i < hops.len()
                &&& hops[i].hop_no > 1
                &&& hops[i].loss_pct is Some && hops[i].loss_pct->0.billionths >= 20 * 1_000_000_000
                &&& forall|j: int|
                    0 <= j < hops.len() && (#[trigger] hops[j]).hop_no > 1
                        && hops[j].loss_pct is Some
                        && hops[j].loss_pct->0.billionths >= 20 * 1_000_000_000
                        ==> hops[j].loss_pct->0.billionths < hops[i].loss_pct->0.billionths || (
                    hops[j].loss_pct->0.billionths == hops[i].loss_pct->0.billionths && j <= i)
            },
            None => forall|j: int|
                0 <= j < hops.len() ==> !((#[trigger] hops[j]).hop_no > 1
                    && hops[j].loss_pct is Some
                    && hops[j].loss_pct->0.billionths >= 20 * 1_000_000_000),
        },
    decreases hops.len(),
{
    if hops.len() > 0 {
        let w = hops.drop_last();
        law_worst_hop_is_past_the_first(w);
        assert forall|j: int| 0 <= j < w.len() implies w[j] == #[trigger] hops[j] by {}
    }
}

/// The worst hop is told with the target, its loss, its number and its address, and how often
/// the route changed.
pub proof fn law_route_flags_tell_the_hop(target: Seq<char>, h: TracerouteHop, changes: int)
    ensures
        text::contains(
            route_detail(target, h, changes),
            "Your traceroute to "@ + target + " shows "@ + whole(h.loss_pct->0)
                + "% packet loss on hop "@ + number::dec_int(h.hop_no as int) + " ("@
                + display::or_text(text::opt_text(h.ip), "unknown"@) + "), and there have been "@
                + number::dec_int(changes),
        ),
{
    let p = seq![
        "Your traceroute to "@,
        target,
        " shows "@,
        whole(h.loss_pct->0),
        "% packet loss on hop "@,
        number::dec_int(h.hop_no as int),
        " ("@,
        display::or_text(text::opt_text(h.ip), "unknown"@),
        "), and there have been "@,
        number::dec_int(changes),
        " route changes in the last 6 hours. This points to instability upstream of your router, past your ISP's edge — not something fixable locally."@,
    ];
    text::lemma_together_last(p, 11);
    text::lemma_together_last(p, 10);
    text::lemma_together_last(p, 9);
    text::lemma_together_last(p, 8);
    text::lemma_together_last(p, 7);
    text::lemma_together_last(p, 6);
    text::lemma_together_last(p, 5);
    text::lemma_together_last(p, 4);
    text::lemma_together_last(p, 3);
    text::lemma_together_last(p, 2);
    assert(p.take(11) == p);
    assert(text::together(p.take(1)) == p[0]);
    assert(text::together(p) == route_detail(target, h, changes));
    let m0 = seq![p[0], p[1], p[2], p[3], p[4], p[5], p[6], p[7], p[8], p[9]];
    assert(p.subrange(0, 10) == m0);
    text::lemma_neighbours_are_found(p, 0, 10);
    text::lemma_together_last(m0, 10);
    text::lemma_together_last(m0, 9);
    text::lemma_together_last(m0, 8);
    text::lemma_together_last(m0, 7);
    text::lemma_together_last(m0, 6);
    text::lemma_together_last(m0, 5);
    text::lemma_together_last(m0, 4);
    text::lemma_together_last(m0, 3);
    text::lemma_together_last(m0, 2);
    assert(m0.take(10) == m0);
    assert(text::together(m0.take(1)) == p[0]);
}

/// A resolver is told with its mean time, where that is known, and its failures.
pub proof fn law_resolver_lines_tell_time_and_failures(s: rows::StatView)
    ensures
        text::contains(
            resolver_line(s),
            s.resolver + " avg "@ + (match s.avg_ms {
            Some(a) => number::decimal_text(a as nat, 1_000_000_000, 1) + "ms"@,
            None => "n/a"@,
        }) + " ("@ + number::dec(s.failures as nat) + " failures)"@,
        ),
{
    let p = seq![
        s.resolver,
        " avg "@,
        (match s.avg_ms {
            Some(a) => number::decimal_text(a as nat, 1_000_000_000, 1) + "ms"@,
            None => "n/a"@,
        }),
        " ("@,
        number::dec(s.failures as nat),
        " failures)"@,
    ];
    text::lemma_together_last(p, 6);
    text::lemma_together_last(p, 5);
    text::lemma_together_last(p, 4);
    text::lemma_together_last(p, 3);
    text::lemma_together_last(p, 2);
    assert(p.take(6) == p);
    assert(text::together(p.take(1)) == p[0]);
    assert(text::together(p) == resolver_line(s));
    let m0 = seq![p[0], p[1], p[2], p[3], p[4], p[5]];
    assert(p.subrange(0, 6) == m0);
    text::lemma_neighbours_are_found(p, 0, 6);
    text::lemma_together_last(m0, 6);
    text::lemma_together_last(m0, 5);
    text::lemma_together_last(m0, 4);
    text::lemma_together_last(m0, 3);
    text::lemma_together_last(m0, 2);
    assert(m0.take(6) == m0);
    assert(text::together(m0.take(1)) == p[0]);
}

/// The resolvers are told one behind the other. Failures are told before slowness.
pub proof fn law_breakdown_lists_the_resolvers(
    a: Seq<rows::StatView>,
    b: Seq<rows::StatView>,
    s: rows::StatView,
)
    ensures
        a.len() > 0 && b.len() > 0 ==> breakdown(a + b) == breakdown(a) + ", "@ + breakdown(b),
        breakdown(seq![s]) == resolver_line(s),
        total_failures(a) > 0 ==> dns_summary(a) == number::dec(total_failures(a))
            + " DNS lookup failures in the last hour"@,
        total_failures(a) == 0 ==> dns_summary(a)
            == "All compared DNS resolvers are slow (>100ms) in the last hour"@,
    decreases b.len(),
{
    lemma_any_failures(a);
    if a.len() > 0 && b.len() > 0 {
        assert((a + b).drop_last() == a + b.drop_last());
        if b.len() > 1 {
            law_breakdown_lists_the_resolvers(a, b.drop_last(), s);
            assert(breakdown(a + b) == breakdown(a) + ", "@ + breakdown(b));
        } else {
            assert(a + b.drop_last() == a);
        }
    }
}

proof fn lemma_any_failures(v: Seq<rows::StatView>)
    ensures
        any_failures(v) <==> total_failures(v) > 0,
    decreases v.len(),
{
    if v.len() > 0 {
        let w = v.drop_last();
        lemma_any_failures(w);
        assert forall|i: int| 0 <= i < w.len() implies w[i] == #[trigger] v[i] by {}
        assert(v[v.len() - 1] == v.last());
        if any_failures(w) {
            let i = choose|i: int| 0 <= i < w.len() && (#[trigger] w[i]).failures > 0;
            assert(v[i].failures > 0);
        }
        if any_failures(v) {
            let i = choose|i: int| 0 <= i < v.len() && (#[trigger] v[i]).failures > 0;
            if i < w.len() {
                assert(w[i].failures > 0);
            }
        }
    }
}

} // verus!
