//! What the commands print: status, reports, tables and the printed page.

use vstd::prelude::*;

use crate::display;
use crate::number;
use crate::number::Reading;
use crate::order;
use crate::rows;
use crate::rows::{
    BandwidthNow, Device, GatewaySample, Outage, QoeAverage, Reliability, SpeedtestRow,
    TargetStatus, TracerouteHop, TracerouteView,
};
use crate::speedtest::SpeedAndBloat;
use crate::store::{Store, StoreError};
use crate::summary;
use crate::tables;
use crate::text;
use crate::watch;

verus! {

// ---------------------------------------------------------------------------
// Status
// ---------------------------------------------------------------------------

pub open spec fn status_row(s: rows::StatusView) -> Seq<char> {
    "  "@ + display::left(s.label, 14) + " "@ + display::left(s.host, 24) + " IPv"@ + display::left(
        number::dec_int(s.ip_version.unwrap_or(0) as int),
        3,
    ) + " "@ + watch::state_text(s) + "\n"@
}

fn status_row_text(s: &TargetStatus) -> (r: String)
    ensures
        r@ == status_row(s@),
{
    let version: i64 = match s.ip_version {
        Some(v) => v,
        None => 0,
    };
    let mut out = "  ".to_string();
    out.append(display::left_text(s.label.as_str(), 14).as_str());
    out.append(" ");
    out.append(display::left_text(s.host.as_str(), 24).as_str());
    out.append(" IPv");
    out.append(display::left_text(number::i64_text(version).as_str(), 3).as_str());
    out.append(" ");
    out.append(watch::state_of(s).as_str());
    out.append("\n");
    out
}

pub open spec fn status_rows(v: Seq<rows::StatusView>) -> Seq<char>
    decreases v.len(),
{
    if v.len() == 0 {
        Seq::empty()
    } else {
        status_rows(v.drop_last()) + status_row(v.last())
    }
}

/// How many targets are up, each target, the gateway and the public address.
pub open spec fn status_page(
    v: Seq<rows::StatusView>,
    g: Option<GatewaySample>,
    ip: Option<Seq<char>>,
) -> Seq<char> {
    "Reachability: "@ + number::dec(watch::up_targets(v)) + "/"@ + number::dec(v.len())
        + " targets up\n"@ + status_rows(v) + (match g {
        Some(x) => "Gateway: "@ + watch::gateway_figures(x) + "\n"@,
        None => ""@,
    }) + (match ip {
        Some(a) => "Public IP: "@ + a + "\n"@,
        None => ""@,
    })
}

impl Store {
    /// The current reachability, in text.
    pub fn status_text(&self) -> (r: String)
        ensures
            r@ == status_page(
                summary::statuses(self.targets@, self.connectivity@),
                watch::newest_gateway(self.interfaces@),
                crate::records::public_address(self.security@),
            ),
    {
        let targets = self.latest_per_target();
        let gateway = self.latest_gateway();
        let ip = self.latest_public_ip();
        let ghost w = rows::status_views(targets@);
        let mut lines = String::new();
        let mut i: usize = 0;
        while i < targets.len()
            invariant
                i <= targets.len(),
                w == rows::status_views(targets@),
                lines@ == status_rows(w.take(i as int)),
            decreases targets.len() - i,
        {
            assert(w.take(i + 1).drop_last() == w.take(i as int));
            assert(w.take(i + 1).last() == targets@[i as int]@);
            lines.append(status_row_text(&targets[i]).as_str());
            i += 1;
        }
        assert(w.take(w.len() as int) == w);
        let gateway_line = match gateway {
            Some(g) => {
                let mut t = "Gateway: ".to_string();
                t.append(watch::gateway_text(&g).as_str());
                t.append("\n");
                t
            },
            None => "".to_string(),
        };
        let ip_line = match ip {
            Some(a) => {
                let mut t = "Public IP: ".to_string();
                t.append(a.as_str());
                t.append("\n");
                t
            },
            None => "".to_string(),
        };
        let mut out = "Reachability: ".to_string();
        number::push_u64(&mut out, watch::count_up(&targets));
        out.append("/");
        number::push_u64(&mut out, targets.len() as u64);
        out.append(" targets up\n");
        out.append(lines.as_str());
        out.append(gateway_line.as_str());
        out.append(ip_line.as_str());
        out
    }
}

// ---------------------------------------------------------------------------
// Reliability over a window
// ---------------------------------------------------------------------------

/// Uptime with the cycles it was counted over.
pub open spec fn uptime_text(r: Reliability) -> Seq<char> {
    number::decimal_text(r.uptime_pct as nat, 1_000_000_000, 1) + "%  ("@ + number::dec(
        r.up_samples as nat,
    ) + " of "@ + number::dec(r.samples as nat) + " cycles)"@
}

pub fn uptime_of(r: &Reliability) -> (t: String)
    ensures
        t@ == uptime_text(*r),
{
    let mut out = number::decimal_of(r.uptime_pct, 1_000_000_000, 1);
    out.append("%  (");
    number::push_u64(&mut out, r.up_samples);
    out.append(" of ");
    number::push_u64(&mut out, r.samples);
    out.append(" cycles)");
    out
}

pub open spec fn report_page(secs: i64, r: Reliability, q: Option<QoeAverage>) -> Seq<char> {
    "Over the last "@ + display::window_text(secs as int) + ":\n  uptime      "@ + uptime_text(r)
        + "\n  avg latency "@ + display::measure(r.avg_latency_ms, 1, " ms"@)
        + "\n  avg jitter  "@ + display::measure(r.avg_jitter_ms, 1, " ms"@)
        + "\n  avg loss    "@ + display::measure(r.avg_loss_pct, 1, "%"@) + "\n  disconnects "@
        + number::dec(r.disconnects as nat) + "\n"@ + (match q {
        Some(x) => "QoE (30m): "@ + watch::score_list(x) + "\n"@,
        None => ""@,
    })
}

impl Store {
    /// Reliability over the last `secs` seconds and the scores of the last half
    /// hour, in text.
    pub fn report_text(&self, now: i64, secs: i64) -> (t: String)
        requires
            now >= i64::MIN + 1_800_000,
        ensures
            t@ == report_of(*self, now, secs),
    {
        let r = self.reliability_since(display::window_start(now, secs));
        let q = self.qoe_average_since(now - 1_800_000);
        let scores = match q {
            Some(x) => {
                let mut t = "QoE (30m): ".to_string();
                t.append(watch::scores_text(&x).as_str());
                t.append("\n");
                t
            },
            None => "".to_string(),
        };
        let mut out = "Over the last ".to_string();
        out.append(display::human(secs).as_str());
        out.append(":\n  uptime      ");
        out.append(uptime_of(&r).as_str());
        out.append("\n  avg latency ");
        out.append(display::measure_text(r.avg_latency_ms, 1, " ms").as_str());
        out.append("\n  avg jitter  ");
        out.append(display::measure_text(r.avg_jitter_ms, 1, " ms").as_str());
        out.append("\n  avg loss    ");
        out.append(display::measure_text(r.avg_loss_pct, 1, "%").as_str());
        out.append("\n  disconnects ");
        number::push_u64(&mut out, r.disconnects);
        out.append("\n");
        out.append(scores.as_str());
        out
    }
}

// ---------------------------------------------------------------------------
// DNS
// ---------------------------------------------------------------------------

pub open spec fn dns_rows(v: Seq<rows::StatView>) -> Seq<char>
    decreases v.len(),
{
    if v.len() == 0 {
        Seq::empty()
    } else {
        dns_rows(v.drop_last()) + "  "@ + watch::resolver_row(v.last(), 16) + "\n"@
    }
}

pub open spec fn dns_page(v: Seq<rows::StatView>) -> Seq<char> {
    if v.len() == 0 {
        "no DNS samples yet\n"@
    } else {
        dns_rows(v)
    }
}

impl Store {
    /// The resolvers compared over the last `secs` seconds, in text.
    pub fn dns_text(&self, now: i64, secs: i64) -> (t: String)
        ensures
            t@ == dns_of(*self, now, secs),
    {
        let v = self.dns_comparison(display::window_start(now, secs));
        let ghost w = rows::stat_views(v@);
        assert(w.len() == v@.len());
        if v.len() == 0 {
            return "no DNS samples yet\n".to_string();
        }
        let mut out = String::new();
        let mut i: usize = 0;
        while i < v.len()
            invariant
                i <= v.len(),
                w == rows::stat_views(v@),
                out@ == dns_rows(w.take(i as int)),
            decreases v.len() - i,
        {
            assert(w.take(i + 1).drop_last() == w.take(i as int));
            assert(w.take(i + 1).last() == v@[i as int]@);
            out.append("  ");
            out.append(watch::resolver_text(&v[i], 16).as_str());
            out.append("\n");
            i += 1;
        }
        assert(w.take(w.len() as int) == w);
        out
    }
}

// ---------------------------------------------------------------------------
// Route
// ---------------------------------------------------------------------------

/// The loss of a hop, where there is any.
pub open spec fn hop_loss(loss: Option<Reading>) -> Seq<char> {
    match loss {
        Some(x) => if x.billionths > 0 {
            display::signed(x.billionths as int, 1_000_000_000, 0) + "% loss"@
        } else {
            ""@
        },
        None => ""@,
    }
}

pub open spec fn hop_row(h: TracerouteHop) -> Seq<char> {
    "  "@ + display::right(number::dec_int(h.hop_no as int), 2) + "  "@ + display::left(
        display::or_text(text::opt_text(h.ip), "*"@),
        16,
    ) + " "@ + display::right(display::reading_or(h.rtt_ms, 1, "ms"@, ""@), 9) + " "@ + hop_loss(
        h.loss_pct,
    ) + "\n"@
}

fn hop_text(h: &TracerouteHop) -> (r: String)
    ensures
        r@ == hop_row(*h),
{
    let loss = match h.loss_pct {
        Some(x) => if x.billionths > 0 {
            let mut t = display::signed_text(x.billionths, 1_000_000_000, 0);
            t.append("% loss");
            t
        } else {
            "".to_string()
        },
        None => "".to_string(),
    };
    let mut out = "  ".to_string();
    out.append(display::right_text(number::i64_text(h.hop_no).as_str(), 2).as_str());
    out.append("  ");
    out.append(display::left_text(display::or(&h.ip, "*"), 16).as_str());
    out.append(" ");
    out.append(
        display::right_text(display::reading_text(h.rtt_ms, 1, "ms", "").as_str(), 9).as_str(),
    );
    out.append(" ");
    out.append(loss.as_str());
    out.append("\n");
    out
}

pub open spec fn hop_rows(v: Seq<TracerouteHop>) -> Seq<char>
    decreases v.len(),
{
    if v.len() == 0 {
        Seq::empty()
    } else {
        hop_rows(v.drop_last()) + hop_row(v.last())
    }
}

pub open spec fn route_page(t: Option<TracerouteView>) -> Seq<char> {
    match t {
        Some(x) => "Route to "@ + x.target@ + " · "@ + number::dec_int(x.hop_count as int)
            + " hops\n"@ + hop_rows(x.hops@),
        None => "no traceroute yet (needs the traceroute/tracert tool)\n"@,
    }
}

impl Store {
    /// The newest traceroute hop by hop, in text.
    pub fn route_text(&self) -> (t: String)
        ensures
            t@ == route_page(tables::newest_in(self.traceroutes@)),
    {
        match self.latest_traceroute() {
            Some(x) => {
                let mut lines = String::new();
                let mut i: usize = 0;
                while i < x.hops.len()
                    invariant
                        i <= x.hops.len(),
                        lines@ == hop_rows(x.hops@.take(i as int)),
                    decreases x.hops.len() - i,
                {
                    assert(x.hops@.take(i + 1).drop_last() == x.hops@.take(i as int));
                    lines.append(hop_text(&x.hops[i]).as_str());
                    i += 1;
                }
                assert(x.hops@.take(x.hops@.len() as int) == x.hops@);
                let mut out = "Route to ".to_string();
                out.append(x.target.as_str());
                out.append(" · ");
                number::push_i64(&mut out, x.hop_count);
                out.append(" hops\n");
                out.append(lines.as_str());
                out
            },
            None => "no traceroute yet (needs the traceroute/tracert tool)\n".to_string(),
        }
    }
}

// ---------------------------------------------------------------------------
// Bandwidth
// ---------------------------------------------------------------------------

pub open spec fn bandwidth_page(
    b: Option<BandwidthNow>,
    secs: i64,
    rx: int,
    tx: int,
) -> Seq<char> {
    (match b {
        Some(x) => "Live: "@ + watch::rates(x) + "\n"@,
        None => "no bandwidth samples yet\n"@,
    }) + "Total over "@ + display::window_text(secs as int) + ": ↓ "@ + display::signed_quotient(
        rx,
        1_000_000_000,
        2,
    ) + " GB · ↑ "@ + display::signed_quotient(tx, 1_000_000_000, 2) + " GB\n"@
}

impl Store {
    /// The current rate and the bytes moved over the last `secs` seconds, in
    /// text.
    pub fn bandwidth_text(&self, now: i64, secs: i64) -> (t: Result<String, StoreError>)
        ensures
            ({
                let since = display::start_of(now, secs);
                let rx = tables::rx_since(self.interfaces@, since);
                let tx = tables::tx_since(self.interfaces@, since);
                match t {
                    Ok(s) => {
                        &&& tables::fits_i64(rx) && tables::fits_i64(tx)
                        &&& s@ == bandwidth_page(tables::newest_in(self.bandwidth@), secs, rx, tx)
                    },
                    Err(e) => e == StoreError::Overflow && !(tables::fits_i64(rx)
                        && tables::fits_i64(tx)),
                }
            }),
            match t {
                Ok(s) => bandwidth_of(*self, now, secs) == Some(s@),
                Err(_) => bandwidth_of(*self, now, secs) is None,
            },
    {
        let totals = match self.bandwidth_totals(display::window_start(now, secs)) {
            Ok(t) => t,
            Err(e) => {
                return Err(e);
            },
        };
        let mut out = match self.latest_bandwidth() {
            Some(b) => {
                let mut t = "Live: ".to_string();
                t.append(watch::rates_text(b).as_str());
                t.append("\n");
                t
            },
            None => "no bandwidth samples yet\n".to_string(),
        };
        out.append("Total over ");
        out.append(display::human(secs).as_str());
        out.append(": ↓ ");
        out.append(display::quotient_of(totals.rx_bytes, 1_000_000_000, 2).as_str());
        out.append(" GB · ↑ ");
        out.append(display::quotient_of(totals.tx_bytes, 1_000_000_000, 2).as_str());
        out.append(" GB\n");
        Ok(out)
    }
}

// ---------------------------------------------------------------------------
// Devices, events, outages
// ---------------------------------------------------------------------------

pub open spec fn device_row(d: Device) -> Seq<char> {
    "  "@ + display::left(display::or_text(text::opt_text(d.ip), "?"@), 16) + " "@ + display::left(
        display::or_text(text::opt_text(d.mac), "?"@),
        18,
    ) + " "@ + display::or_text(text::opt_text(d.hostname), ""@) + "\n"@
}

fn device_row_text(d: &Device) -> (r: String)
    ensures
        r@ == device_row(*d),
{
    let mut out = "  ".to_string();
    out.append(display::left_text(display::or(&d.ip, "?"), 16).as_str());
    out.append(" ");
    out.append(display::left_text(display::or(&d.mac, "?"), 18).as_str());
    out.append(" ");
    out.append(display::or(&d.hostname, ""));
    out.append("\n");
    out
}

pub open spec fn device_rows(v: Seq<Device>) -> Seq<char>
    decreases v.len(),
{
    if v.len() == 0 {
        Seq::empty()
    } else {
        device_rows(v.drop_last()) + device_row(v.last())
    }
}

pub open spec fn devices_page(v: Seq<Device>) -> Seq<char> {
    if v.len() == 0 {
        "no devices discovered yet\n"@
    } else {
        device_rows(v)
    }
}

/// A duration, or another text where there is none.
pub open spec fn duration_or(ms: Option<i64>, none: Seq<char>) -> Seq<char> {
    match ms {
        Some(d) => display::duration(d as int),
        None => none,
    }
}

pub fn duration_text(ms: Option<i64>, none: &str) -> (r: String)
    ensures
        r@ == duration_or(ms, none@),
{
    match ms {
        Some(d) => display::fmt_dur(d),
        None => none.to_string(),
    }
}

pub open spec fn outage_row(o: Outage) -> Seq<char> {
    "  "@ + display::stamp(o.ts_start as int) + "  duration "@ + duration_or(
        o.duration_ms,
        "ongoing"@,
    ) + "  reconnect "@ + duration_or(o.reconnect_ms, "—"@) + "\n"@
}

fn outage_row_text(o: &Outage) -> (r: String)
    ensures
        r@ == outage_row(*o),
{
    let mut out = "  ".to_string();
    out.append(display::fmt_ts(o.ts_start).as_str());
    out.append("  duration ");
    out.append(duration_text(o.duration_ms, "ongoing").as_str());
    out.append("  reconnect ");
    out.append(duration_text(o.reconnect_ms, "—").as_str());
    out.append("\n");
    out
}

pub open spec fn outage_rows(v: Seq<Outage>) -> Seq<char>
    decreases v.len(),
{
    if v.len() == 0 {
        Seq::empty()
    } else {
        outage_rows(v.drop_last()) + outage_row(v.last())
    }
}

pub open spec fn outages_page(v: Seq<Outage>) -> Seq<char> {
    if v.len() == 0 {
        "no outages recorded\n"@
    } else {
        outage_rows(v)
    }
}

impl Store {
    /// The known devices, the most recently seen first, in text.
    pub fn devices_text(&self) -> (t: String)
        ensures
            t@ == devices_page(tables::newest_list(self.devices@, order::NO_LIMIT)),
    {
        let list = self.list_devices();
        let ghost v = tables::all_behind(list@);
        assert(v.len() == list@.len());
        if list.len() == 0 {
            return "no devices discovered yet\n".to_string();
        }
        let mut out = String::new();
        let mut i: usize = 0;
        while i < list.len()
            invariant
                i <= list.len(),
                v == tables::all_behind(list@),
                out@ == device_rows(v.take(i as int)),
            decreases list.len() - i,
        {
            assert(v.take(i + 1).drop_last() == v.take(i as int));
            out.append(device_row_text(list[i]).as_str());
            i += 1;
        }
        assert(v.take(v.len() as int) == v);
        out
    }

    /// The newest events, in text.
    pub fn recent_events_text(&self, limit: i64) -> (t: String)
        ensures
            t@ == watch::event_rows(tables::newest_list(self.events@, limit), "  "@),
    {
        let list = self.recent_events(limit);
        watch::events_text(&list, "  ")
    }

    /// The newest outages, in text.
    pub fn outages_text(&self, limit: i64) -> (t: String)
        ensures
            t@ == outages_page(tables::newest_list(self.outages@, limit)),
    {
        let list = self.recent_outages(limit);
        let ghost v = tables::all_behind(list@);
        assert(v.len() == list@.len());
        if list.len() == 0 {
            return "no outages recorded\n".to_string();
        }
        let mut out = String::new();
        let mut i: usize = 0;
        while i < list.len()
            invariant
                i <= list.len(),
                v == tables::all_behind(list@),
                out@ == outage_rows(v.take(i as int)),
            decreases list.len() - i,
        {
            assert(v.take(i + 1).drop_last() == v.take(i as int));
            out.append(outage_row_text(list[i]).as_str());
            i += 1;
        }
        assert(v.take(v.len() as int) == v);
        out
    }
}

// ---------------------------------------------------------------------------
// Exports
// ---------------------------------------------------------------------------

impl Store {
    /// The named table as CSV. There are two: `connectivity` and `events`.
    pub fn export_csv(&self, kind: &str, since: i64) -> (t: Option<String>)
        ensures
            match t {
                Some(s) => {
                    ||| kind@ == "events"@ && s@ == crate::export::events_csv(self.events@, since)
                    ||| kind@ != "events"@ && kind@ == "connectivity"@ && s@
                        == crate::export::connectivity_csv(self.connectivity@, since)
                },
                None => kind@ != "events"@ && kind@ != "connectivity"@,
            },
            text::opt_text(t) == csv_of(*self, kind@, since),
    {
        if text::same_str(kind, "events") {
            Some(self.export_events_csv(since))
        } else if text::same_str(kind, "connectivity") {
            Some(self.export_connectivity_csv(since))
        } else {
            None
        }
    }
}

/// The file of an export and what it holds.
pub struct ExportFile {
    pub name: String,
    pub csv: String,
}

impl Store {
    /// The export of the last `secs` seconds as a file. Any table but `events`
    /// is the connectivity table.
    pub fn export_file(&self, kind: &str, now: i64, secs: i64) -> (r: ExportFile)
        ensures
            r.name@ == "tracium-"@ + kind@ + ".csv"@,
            r.csv@ == export_of(*self, kind@, now, secs),
    {
        let since: i64 = display::window_start(now, secs);
        let mut name = "tracium-".to_string();
        name.append(kind);
        name.append(".csv");
        let csv = if text::same_str(kind, "events") {
            self.export_events_csv(since)
        } else {
            self.export_connectivity_csv(since)
        };
        ExportFile { name, csv }
    }
}

// ---------------------------------------------------------------------------
// Speed tests
// ---------------------------------------------------------------------------

/// The speed-test program: the one that is configured, unless that is empty,
/// then the one beside this program, then the one on the search path.
pub fn speedtest_program(configured: Option<&str>, beside: Option<&str>) -> (r: String)
    ensures
        r@ == program(text::str_view(configured), text::str_view(beside)),
{
    if let Some(c) = configured {
        if text::chars(c).len() > 0 {
            return c.to_string();
        }
    }
    match beside {
        Some(b) => b.to_string(),
        None => "librespeed-cli".to_string(),
    }
}

/// A latency as a reading; one that is too great for a reading is the greatest.
pub open spec fn as_reading(billionths: u64) -> Reading {
    Reading { billionths: number::capped(billionths as nat) as i64 }
}

fn reading_of(billionths: u64) -> (r: Reading)
    ensures
        r == as_reading(billionths),
{
    if billionths > i64::MAX as u64 {
        Reading { billionths: i64::MAX }
    } else {
        Reading { billionths: billionths as i64 }
    }
}

/// A speed-test run as it is stored.
pub open spec fn is_speed_row(row: SpeedtestRow, ts: i64, run: SpeedAndBloat) -> bool {
    &&& run.speed is Some
    &&& row.ts == ts
    &&& text::opt_text(row.engine) == Some("librespeed-cli"@)
    &&& row.server == run.speed->0.server
    &&& row.download_mbps == run.speed->0.download_mbps
    &&& row.upload_mbps == run.speed->0.upload_mbps
    &&& row.ping_ms == run.speed->0.ping_ms
    &&& row.jitter_ms == run.speed->0.jitter_ms
    &&& match run.bufferbloat {
        Some(b) => {
            &&& row.idle_latency_ms == Some(as_reading(b.idle_ms))
            &&& row.loaded_latency_ms == Some(as_reading(b.loaded_ms))
            &&& row.bufferbloat_grade == Some(b.grade)
        },
        None => {
            &&& row.idle_latency_ms is None
            &&& row.loaded_latency_ms is None
            &&& row.bufferbloat_grade is None
        },
    }
}

pub open spec fn speed_page(row: SpeedtestRow) -> Seq<char> {
    let zero = Reading { billionths: 0 };
    "↓ "@ + display::signed(row.download_mbps.unwrap_or(zero).billionths as int, 1_000_000_000, 1)
        + " Mbps · ↑ "@ + display::signed(
        row.upload_mbps.unwrap_or(zero).billionths as int,
        1_000_000_000,
        1,
    ) + " Mbps · ping "@ + display::signed(
        row.ping_ms.unwrap_or(zero).billionths as int,
        1_000_000_000,
        0,
    ) + " ms · bufferbloat "@ + display::or_text(text::opt_text(row.bufferbloat_grade), "—"@)
        + "\n"@ + (match text::opt_text(row.server) {
        Some(s) => "server: "@ + s + "\n"@,
        None => ""@,
    })
}

fn billionths_or_zero(v: Option<Reading>) -> (r: i64)
    ensures
        r == v.unwrap_or(Reading { billionths: 0 }).billionths,
{
    match v {
        Some(x) => x.billionths,
        None => 0,
    }
}

/// A speed-test result, in text.
pub fn speed_text(row: &SpeedtestRow) -> (t: String)
    ensures
        t@ == speed_page(*row),
{
    let server = match &row.server {
        Some(s) => {
            let mut t = "server: ".to_string();
            t.append(s.as_str());
            t.append("\n");
            t
        },
        None => "".to_string(),
    };
    let mut out = "↓ ".to_string();
    out.append(
        display::signed_text(billionths_or_zero(row.download_mbps), 1_000_000_000, 1).as_str(),
    );
    out.append(" Mbps · ↑ ");
    out.append(
        display::signed_text(billionths_or_zero(row.upload_mbps), 1_000_000_000, 1).as_str(),
    );
    out.append(" Mbps · ping ");
    out.append(display::signed_text(billionths_or_zero(row.ping_ms), 1_000_000_000, 0).as_str());
    out.append(" ms · bufferbloat ");
    out.append(display::or(&row.bufferbloat_grade, "—"));
    out.append("\n");
    out.append(server.as_str());
    out
}

impl Store {
    /// Stores a speed-test run and returns the row. A run without a result is
    /// not stored.
    pub fn record_speedtest(&mut self, ts: i64, run: SpeedAndBloat) -> (r: Option<SpeedtestRow>)
        requires
            old(self).wf(),
        ensures
            final(self).wf(),
            match r {
                Some(row) => {
                    &&& is_speed_row(row, ts, run)
                    &&& final(self).speedtests@ == old(self).speedtests@.push(row)
                    &&& *final(self) == (Store { speedtests: final(self).speedtests, ..*old(self) })
                },
                None => run.speed is None && *final(self) == *old(self),
            },
    {
        match run.speed {
            Some(s) => {
                let (idle, loaded, grade) = match run.bufferbloat {
                    Some(b) => (
                        Some(reading_of(b.idle_ms)),
                        Some(reading_of(b.loaded_ms)),
                        Some(b.grade),
                    ),
                    None => (None, None, None),
                };
                let row = SpeedtestRow {
                    ts,
                    engine: Some("librespeed-cli".to_string()),
                    server: s.server,
                    download_mbps: s.download_mbps,
                    upload_mbps: s.upload_mbps,
                    ping_ms: s.ping_ms,
                    jitter_ms: s.jitter_ms,
                    idle_latency_ms: idle,
                    loaded_latency_ms: loaded,
                    bufferbloat_grade: grade,
                };
                self.insert_speedtest(&row);
                Some(row)
            },
            None => None,
        }
    }
}

/// Each figure of the report stands behind its name.
pub proof fn law_report_tells_the_figures(secs: i64, r: Reliability, q: Option<QoeAverage>)
    ensures
        text::contains(
            report_page(secs, r, q),
            "Over the last "@ + display::window_text(secs as int),
        ),
        text::contains(
            report_page(secs, r, q),
            ":\n  uptime      "@ + uptime_text(r),
        ),
        text::contains(
            report_page(secs, r, q),
            "\n  avg latency "@ + display::measure(r.avg_latency_ms, 1, " ms"@),
        ),
        text::contains(
            report_page(secs, r, q),
            "\n  avg jitter  "@ + display::measure(r.avg_jitter_ms, 1, " ms"@),
        ),
        text::contains(
            report_page(secs, r, q),
            "\n  avg loss    "@ + display::measure(r.avg_loss_pct, 1, "%"@),
        ),
        text::contains(
            report_page(secs, r, q),
            "\n  disconnects "@ + number::dec(r.disconnects as nat),
        ),
{
    let p = seq![
        "Over the last "@,
        display::window_text(secs as int),
        ":\n  uptime      "@,
        uptime_text(r),
        "\n  avg latency "@,
        display::measure(r.avg_latency_ms, 1, " ms"@),
        "\n  avg jitter  "@,
        display::measure(r.avg_jitter_ms, 1, " ms"@),
        "\n  avg loss    "@,
        display::measure(r.avg_loss_pct, 1, "%"@),
        "\n  disconnects "@,
        number::dec(r.disconnects as nat),
        "\n"@,
        match q {
            Some(x) => "QoE (30m): "@ + watch::score_list(x) + "\n"@,
            None => ""@,
        },
    ];
    text::lemma_together_last(p, 14);
    text::lemma_together_last(p, 13);
    text::lemma_together_last(p, 12);
    text::lemma_together_last(p, 11);
    text::lemma_together_last(p, 10);
    text::lemma_together_last(p, 9);
    text::lemma_together_last(p, 8);
    text::lemma_together_last(p, 7);
    text::lemma_together_last(p, 6);
    text::lemma_together_last(p, 5);
    text::lemma_together_last(p, 4);
    text::lemma_together_last(p, 3);
    text::lemma_together_last(p, 2);
    assert(p.take(14) == p);
    assert(text::together(p.take(1)) == p[0]);
    assert(text::together(p) == report_page(secs, r, q));
    text::lemma_pair_is_found(p, 0);
    text::lemma_pair_is_found(p, 2);
    text::lemma_pair_is_found(p, 4);
    text::lemma_pair_is_found(p, 6);
    text::lemma_pair_is_found(p, 8);
    text::lemma_pair_is_found(p, 10);
}

/// The uptime is told with the cycles that were up and all cycles.
pub proof fn law_uptime_is_told_with_the_cycles(r: Reliability)
    ensures
        text::contains(
            uptime_text(r),
            number::decimal_text(r.uptime_pct as nat, 1_000_000_000, 1) + "%  ("@
                + number::dec(r.up_samples as nat) + " of "@ + number::dec(r.samples as nat)
                + " cycles)"@,
        ),
{
    let p = seq![
        number::decimal_text(r.uptime_pct as nat, 1_000_000_000, 1),
        "%  ("@,
        number::dec(r.up_samples as nat),
        " of "@,
        number::dec(r.samples as nat),
        " cycles)"@,
    ];
    text::lemma_together_last(p, 6);
    text::lemma_together_last(p, 5);
    text::lemma_together_last(p, 4);
    text::lemma_together_last(p, 3);
    text::lemma_together_last(p, 2);
    assert(p.take(6) == p);
    assert(text::together(p.take(1)) == p[0]);
    assert(text::together(p) == uptime_text(r));
    let m0 = seq![p[0], p[1], p[2], p[3], p[4], p[5]];
    assert(p.subrange(0, 6) == m0);
    text::lemma_neighbours_are_found(p, 0, 6);
    text::lemma_together_last(m0, 6);
    text::lemma_together_last(m0, 5);
    text::lemma_together_last(m0, 4);
    text::lemma_together_last(m0, 3);
    text::lemma_together_last(m0, 2);
    assert(m0.take(6) == m0);
    assert(text::together(m0.take(1)) == p[0]);
}

/// A hop is told by its number, its address, its time and its loss.
pub proof fn law_hops_are_told(h: TracerouteHop)
    ensures
        text::contains(
            hop_row(h),
            "  "@ + display::right(number::dec_int(h.hop_no as int), 2) + "  "@
                + display::left(display::or_text(text::opt_text(h.ip), "*"@), 16) + " "@
                + display::right(display::reading_or(h.rtt_ms, 1, "ms"@, ""@), 9) + " "@
                + hop_loss(h.loss_pct) + "\n"@,
        ),
{
    let p = seq![
        "  "@,
        display::right(number::dec_int(h.hop_no as int), 2),
        "  "@,
        display::left(display::or_text(text::opt_text(h.ip), "*"@), 16),
        " "@,
        display::right(display::reading_or(h.rtt_ms, 1, "ms"@, ""@), 9),
        " "@,
        hop_loss(h.loss_pct),
        "\n"@,
    ];
    text::lemma_together_last(p, 9);
    text::lemma_together_last(p, 8);
    text::lemma_together_last(p, 7);
    text::lemma_together_last(p, 6);
    text::lemma_together_last(p, 5);
    text::lemma_together_last(p, 4);
    text::lemma_together_last(p, 3);
    text::lemma_together_last(p, 2);
    assert(p.take(9) == p);
    assert(text::together(p.take(1)) == p[0]);
    assert(text::together(p) == hop_row(h));
    let m0 = seq![p[0], p[1], p[2], p[3], p[4], p[5], p[6], p[7], p[8]];
    assert(p.subrange(0, 9) == m0);
    text::lemma_neighbours_are_found(p, 0, 9);
    text::lemma_together_last(m0, 9);
    text::lemma_together_last(m0, 8);
    text::lemma_together_last(m0, 7);
    text::lemma_together_last(m0, 6);
    text::lemma_together_last(m0, 5);
    text::lemma_together_last(m0, 4);
    text::lemma_together_last(m0, 3);
    text::lemma_together_last(m0, 2);
    assert(m0.take(9) == m0);
    assert(text::together(m0.take(1)) == p[0]);
}

/// An outage is told by its start, its duration and the time to reconnect.
pub proof fn law_outages_are_told(o: Outage)
    ensures
        text::contains(
            outage_row(o),
            "  "@ + display::stamp(o.ts_start as int) + "  duration "@
                + duration_or(o.duration_ms, "ongoing"@) + "  reconnect "@
                + duration_or(o.reconnect_ms, "—"@) + "\n"@,
        ),
{
    let p = seq![
        "  "@,
        display::stamp(o.ts_start as int),
        "  duration "@,
        duration_or(o.duration_ms, "ongoing"@),
        "  reconnect "@,
        duration_or(o.reconnect_ms, "—"@),
        "\n"@,
    ];
    text::lemma_together_last(p, 7);
    text::lemma_together_last(p, 6);
    text::lemma_together_last(p, 5);
    text::lemma_together_last(p, 4);
    text::lemma_together_last(p, 3);
    text::lemma_together_last(p, 2);
    assert(p.take(7) == p);
    assert(text::together(p.take(1)) == p[0]);
    assert(text::together(p) == outage_row(o));
    let m0 = seq![p[0], p[1], p[2], p[3], p[4], p[5], p[6]];
    assert(p.subrange(0, 7) == m0);
    text::lemma_neighbours_are_found(p, 0, 7);
    text::lemma_together_last(m0, 7);
    text::lemma_together_last(m0, 6);
    text::lemma_together_last(m0, 5);
    text::lemma_together_last(m0, 4);
    text::lemma_together_last(m0, 3);
    text::lemma_together_last(m0, 2);
    assert(m0.take(7) == m0);
    assert(text::together(m0.take(1)) == p[0]);
}

/// A target is told by its label, its host, the version of its protocol and its state.
pub proof fn law_status_rows_tell_the_target(s: rows::StatusView)
    ensures
        text::contains(
            status_row(s),
            "  "@ + display::left(s.label, 14) + " "@ + display::left(s.host, 24) + " IPv"@
                + display::left(number::dec_int(s.ip_version.unwrap_or(0) as int), 3) + " "@
                + watch::state_text(s) + "\n"@,
        ),
{
    let p = seq![
        "  "@,
        display::left(s.label, 14),
        " "@,
        display::left(s.host, 24),
        " IPv"@,
        display::left(number::dec_int(s.ip_version.unwrap_or(0) as int), 3),
        " "@,
        watch::state_text(s),
        "\n"@,
    ];
    text::lemma_together_last(p, 9);
    text::lemma_together_last(p, 8);
    text::lemma_together_last(p, 7);
    text::lemma_together_last(p, 6);
    text::lemma_together_last(p, 5);
    text::lemma_together_last(p, 4);
    text::lemma_together_last(p, 3);
    text::lemma_together_last(p, 2);
    assert(p.take(9) == p);
    assert(text::together(p.take(1)) == p[0]);
    assert(text::together(p) == status_row(s));
    let m0 = seq![p[0], p[1], p[2], p[3], p[4], p[5], p[6], p[7], p[8]];
    assert(p.subrange(0, 9) == m0);
    text::lemma_neighbours_are_found(p, 0, 9);
    text::lemma_together_last(m0, 9);
    text::lemma_together_last(m0, 8);
    text::lemma_together_last(m0, 7);
    text::lemma_together_last(m0, 6);
    text::lemma_together_last(m0, 5);
    text::lemma_together_last(m0, 4);
    text::lemma_together_last(m0, 3);
    text::lemma_together_last(m0, 2);
    assert(m0.take(9) == m0);
    assert(text::together(m0.take(1)) == p[0]);
}

/// A device is told by its address, its hardware address and its name.
pub proof fn law_devices_are_told_with_their_address(d: Device)
    ensures
        text::contains(
            device_row(d),
            "  "@ + display::left(display::or_text(text::opt_text(d.ip), "?"@), 16) + " "@
                + display::left(display::or_text(text::opt_text(d.mac), "?"@), 18) + " "@
                + display::or_text(text::opt_text(d.hostname), ""@) + "\n"@,
        ),
{
    let p = seq![
        "  "@,
        display::left(display::or_text(text::opt_text(d.ip), "?"@), 16),
        " "@,
        display::left(display::or_text(text::opt_text(d.mac), "?"@), 18),
        " "@,
        display::or_text(text::opt_text(d.hostname), ""@),
        "\n"@,
    ];
    text::lemma_together_last(p, 7);
    text::lemma_together_last(p, 6);
    text::lemma_together_last(p, 5);
    text::lemma_together_last(p, 4);
    text::lemma_together_last(p, 3);
    text::lemma_together_last(p, 2);
    assert(p.take(7) == p);
    assert(text::together(p.take(1)) == p[0]);
    assert(text::together(p) == device_row(d));
    let m0 = seq![p[0], p[1], p[2], p[3], p[4], p[5], p[6]];
    assert(p.subrange(0, 7) == m0);
    text::lemma_neighbours_are_found(p, 0, 7);
    text::lemma_together_last(m0, 7);
    text::lemma_together_last(m0, 6);
    text::lemma_together_last(m0, 5);
    text::lemma_together_last(m0, 4);
    text::lemma_together_last(m0, 3);
    text::lemma_together_last(m0, 2);
    assert(m0.take(7) == m0);
    assert(text::together(m0.take(1)) == p[0]);
}

/// Download stands behind the arrow down, upload behind the arrow up, and the ping and the
/// grade behind their names. What is not known counts as nothing.
pub proof fn law_speeds_are_told(row: SpeedtestRow)
    ensures
        text::contains(
            speed_page(row),
            "↓ "@ + display::signed(row.download_mbps.unwrap_or(Reading { billionths: 0 }).billionths as int, 1_000_000_000, 1),
        ),
        text::contains(
            speed_page(row),
            " Mbps · ↑ "@
                + display::signed(row.upload_mbps.unwrap_or(Reading { billionths: 0 }).billionths as int, 1_000_000_000, 1),
        ),
        text::contains(
            speed_page(row),
            " Mbps · ping "@
                + display::signed(row.ping_ms.unwrap_or(Reading { billionths: 0 }).billionths as int, 1_000_000_000, 0),
        ),
        text::contains(
            speed_page(row),
            " ms · bufferbloat "@ + display::or_text(text::opt_text(row.bufferbloat_grade), "—"@),
        ),
{
    let p = seq![
        "↓ "@,
        display::signed(row.download_mbps.unwrap_or(Reading { billionths: 0 }).billionths as int, 1_000_000_000, 1),
        " Mbps · ↑ "@,
        display::signed(row.upload_mbps.unwrap_or(Reading { billionths: 0 }).billionths as int, 1_000_000_000, 1),
        " Mbps · ping "@,
        display::signed(row.ping_ms.unwrap_or(Reading { billionths: 0 }).billionths as int, 1_000_000_000, 0),
        " ms · bufferbloat "@,
        display::or_text(text::opt_text(row.bufferbloat_grade), "—"@),
        "\n"@,
        match text::opt_text(row.server) {
            Some(s) => "server: "@ + s + "\n"@,
            None => ""@,
        },
    ];
    text::lemma_together_last(p, 10);
    text::lemma_together_last(p, 9);
    text::lemma_together_last(p, 8);
    text::lemma_together_last(p, 7);
    text::lemma_together_last(p, 6);
    text::lemma_together_last(p, 5);
    text::lemma_together_last(p, 4);
    text::lemma_together_last(p, 3);
    text::lemma_together_last(p, 2);
    assert(p.take(10) == p);
    assert(text::together(p.take(1)) == p[0]);
    assert(text::together(p) == speed_page(row));
    text::lemma_pair_is_found(p, 0);
    text::lemma_pair_is_found(p, 2);
    text::lemma_pair_is_found(p, 4);
    text::lemma_pair_is_found(p, 6);
}

/// Each target has a row, in their order.
pub proof fn law_each_target_has_a_row(
    a: Seq<rows::StatusView>,
    b: Seq<rows::StatusView>,
    row: rows::StatusView,
)
    ensures
        status_rows(a + b) == status_rows(a) + status_rows(b),
        status_rows(seq![row]) == status_row(row),
        status_rows(Seq::empty()) == Seq::<char>::empty(),
    decreases b.len(),
{
    reveal_with_fuel(status_rows, 2);
    assert(seq![row].drop_last() == Seq::<rows::StatusView>::empty());
    assert(status_rows(seq![row]) == status_row(row));
    if b.len() == 0 {
        assert(a + b == a);
        assert(status_rows(a) + Seq::<char>::empty() == status_rows(a));
    } else {
        law_each_target_has_a_row(a, b.drop_last(), row);
        assert((a + b).drop_last() == a + b.drop_last());
        assert((a + b).last() == b.last());
        assert(status_rows(a + b) == status_rows(a) + status_rows(b));
    }
}

/// Each resolver has a row, in their order.
pub proof fn law_each_resolver_has_a_row(
    a: Seq<rows::StatView>,
    b: Seq<rows::StatView>,
    row: rows::StatView,
)
    ensures
        dns_rows(a + b) == dns_rows(a) + dns_rows(b),
        dns_rows(seq![row]) == "  "@ + watch::resolver_row(row, 16) + "\n"@,
        dns_rows(Seq::empty()) == Seq::<char>::empty(),
    decreases b.len(),
{
    reveal_with_fuel(dns_rows, 2);
    assert(seq![row].drop_last() == Seq::<rows::StatView>::empty());
    assert(dns_rows(seq![row]) == "  "@ + watch::resolver_row(row, 16) + "\n"@);
    if b.len() == 0 {
        assert(a + b == a);
        assert(dns_rows(a) + Seq::<char>::empty() == dns_rows(a));
    } else {
        law_each_resolver_has_a_row(a, b.drop_last(), row);
        assert((a + b).drop_last() == a + b.drop_last());
        assert((a + b).last() == b.last());
        assert(dns_rows(a + b) == dns_rows(a) + dns_rows(b));
    }
}

/// Each hop has a row, in their order.
pub proof fn law_each_hop_has_a_row(
    a: Seq<TracerouteHop>,
    b: Seq<TracerouteHop>,
    row: TracerouteHop,
)
    ensures
        hop_rows(a + b) == hop_rows(a) + hop_rows(b),
        hop_rows(seq![row]) == hop_row(row),
        hop_rows(Seq::empty()) == Seq::<char>::empty(),
    decreases b.len(),
{
    reveal_with_fuel(hop_rows, 2);
    assert(seq![row].drop_last() == Seq::<TracerouteHop>::empty());
    assert(hop_rows(seq![row]) == hop_row(row));
    if b.len() == 0 {
        assert(a + b == a);
        assert(hop_rows(a) + Seq::<char>::empty() == hop_rows(a));
    } else {
        law_each_hop_has_a_row(a, b.drop_last(), row);
        assert((a + b).drop_last() == a + b.drop_last());
        assert((a + b).last() == b.last());
        assert(hop_rows(a + b) == hop_rows(a) + hop_rows(b));
    }
}

/// Each device has a row, in their order.
pub proof fn law_each_device_has_a_row(a: Seq<Device>, b: Seq<Device>, row: Device)
    ensures
        device_rows(a + b) == device_rows(a) + device_rows(b),
        device_rows(seq![row]) == device_row(row),
        device_rows(Seq::empty()) == Seq::<char>::empty(),
    decreases b.len(),
{
    reveal_with_fuel(device_rows, 2);
    assert(seq![row].drop_last() == Seq::<Device>::empty());
    assert(device_rows(seq![row]) == device_row(row));
    if b.len() == 0 {
        assert(a + b == a);
        assert(device_rows(a) + Seq::<char>::empty() == device_rows(a));
    } else {
        law_each_device_has_a_row(a, b.drop_last(), row);
        assert((a + b).drop_last() == a + b.drop_last());
        assert((a + b).last() == b.last());
        assert(device_rows(a + b) == device_rows(a) + device_rows(b));
    }
}

/// Each outage has a row, in their order.
pub proof fn law_each_outage_has_a_row(a: Seq<Outage>, b: Seq<Outage>, row: Outage)
    ensures
        outage_rows(a + b) == outage_rows(a) + outage_rows(b),
        outage_rows(seq![row]) == outage_row(row),
        outage_rows(Seq::empty()) == Seq::<char>::empty(),
    decreases b.len(),
{
    reveal_with_fuel(outage_rows, 2);
    assert(seq![row].drop_last() == Seq::<Outage>::empty());
    assert(outage_rows(seq![row]) == outage_row(row));
    if b.len() == 0 {
        assert(a + b == a);
        assert(outage_rows(a) + Seq::<char>::empty() == outage_rows(a));
    } else {
        law_each_outage_has_a_row(a, b.drop_last(), row);
        assert((a + b).drop_last() == a + b.drop_last());
        assert((a + b).last() == b.last());
        assert(outage_rows(a + b) == outage_rows(a) + outage_rows(b));
    }
}

/// The status counts the targets that are up and tells the gateway and the public address
/// where they are known.
pub proof fn law_status_counts_the_targets(
    v: Seq<rows::StatusView>,
    g: Option<GatewaySample>,
    ip: Option<Seq<char>>,
)
    ensures
        text::contains(
            status_page(v, g, ip),
            "Reachability: "@ + number::dec(watch::up_targets(v)) + "/"@ + number::dec(v.len())
                + " targets up\n"@ + status_rows(v),
        ),
        g is Some ==> text::contains(
            status_page(v, g, ip),
            "Gateway: "@ + watch::gateway_figures(g->0) + "\n"@,
        ),
        ip is Some ==> text::contains(status_page(v, g, ip), "Public IP: "@ + ip->0 + "\n"@),
{
    let p = seq![
        "Reachability: "@,
        number::dec(watch::up_targets(v)),
        "/"@,
        number::dec(v.len()),
        " targets up\n"@,
        status_rows(v),
        match g {
            Some(x) => "Gateway: "@ + watch::gateway_figures(x) + "\n"@,
            None => ""@,
        },
        match ip {
            Some(a) => "Public IP: "@ + a + "\n"@,
            None => ""@,
        },
    ];
    text::lemma_together_last(p, 8);
    text::lemma_together_last(p, 7);
    text::lemma_together_last(p, 6);
    text::lemma_together_last(p, 5);
    text::lemma_together_last(p, 4);
    text::lemma_together_last(p, 3);
    text::lemma_together_last(p, 2);
    assert(p.take(8) == p);
    assert(text::together(p.take(1)) == p[0]);
    assert(text::together(p) == status_page(v, g, ip));
    let m = seq![p[0], p[1], p[2], p[3], p[4], p[5]];
    assert(p.subrange(0, 6) == m);
    text::lemma_neighbours_are_found(p, 0, 6);
    text::lemma_together_last(m, 6);
    text::lemma_together_last(m, 5);
    text::lemma_together_last(m, 4);
    text::lemma_together_last(m, 3);
    text::lemma_together_last(m, 2);
    assert(m.take(6) == m);
    assert(text::together(m.take(1)) == m[0]);
    text::lemma_neighbours_are_found(p, 6, 7);
    assert(p.subrange(6, 7) == seq![p[6]]);
    assert(text::together(seq![p[6]]) == p[6]);
    text::lemma_neighbours_are_found(p, 7, 8);
    assert(p.subrange(7, 8) == seq![p[7]]);
    assert(text::together(seq![p[7]]) == p[7]);
}

/// Where nothing is known yet, a page says so; else it has its rows.
pub proof fn law_empty_pages_say_so(
    dns: Seq<rows::StatView>,
    devices: Seq<Device>,
    outages: Seq<Outage>,
    t: TracerouteView,
)
    ensures
        dns_page(dns) == (if dns.len() > 0 {
            dns_rows(dns)
        } else {
            "no DNS samples yet\n"@
        }),
        devices_page(devices) == (if devices.len() > 0 {
            device_rows(devices)
        } else {
            "no devices discovered yet\n"@
        }),
        outages_page(outages) == (if outages.len() > 0 {
            outage_rows(outages)
        } else {
            "no outages recorded\n"@
        }),
        route_page(None) == "no traceroute yet (needs the traceroute/tracert tool)\n"@,
        route_page(Some(t)) == "Route to "@ + t.target@ + " · "@ + number::dec_int(
            t.hop_count as int,
        ) + " hops\n"@ + hop_rows(t.hops@),
{
}

/// The loss of a hop is told where there was any. An outage without a duration goes on.
pub proof fn law_losses_are_told(r: Reading, ms: i64, none: Seq<char>)
    ensures
        hop_loss(None) == ""@,
        r.billionths <= 0 ==> hop_loss(Some(r)) == ""@,
        r.billionths > 0 ==> hop_loss(Some(r)) == display::signed(
            r.billionths as int,
            1_000_000_000,
            0,
        ) + "% loss"@,
        duration_or(None, none) == none,
        duration_or(Some(ms), none) == display::duration(ms as int),
{
}

/// A run is stored figure by figure, with the latencies and the grade where they were
/// measured.
pub proof fn law_runs_are_stored_as_measured(row: SpeedtestRow, ts: i64, run: SpeedAndBloat)
    requires
        is_speed_row(row, ts, run),
    ensures
        row.ts == ts,
        row.engine is Some && row.engine->0@ == "librespeed-cli"@,
        row.server == run.speed->0.server,
        row.download_mbps == run.speed->0.download_mbps,
        row.upload_mbps == run.speed->0.upload_mbps,
        row.ping_ms == run.speed->0.ping_ms,
        row.jitter_ms == run.speed->0.jitter_ms,
        run.bufferbloat is None ==> row.idle_latency_ms is None && row.loaded_latency_ms is None
            && row.bufferbloat_grade is None,
        run.bufferbloat is Some && run.bufferbloat->0.idle_ms <= i64::MAX
            ==> row.idle_latency_ms is Some && row.idle_latency_ms->0.billionths
            == run.bufferbloat->0.idle_ms,
        run.bufferbloat is Some && run.bufferbloat->0.loaded_ms <= i64::MAX
            ==> row.loaded_latency_ms is Some && row.loaded_latency_ms->0.billionths
            == run.bufferbloat->0.loaded_ms,
        run.bufferbloat is Some ==> row.bufferbloat_grade == Some(run.bufferbloat->0.grade),
{
}

/// What is received and sent is told in billions of bytes, over the window, behind the
/// present rates.
pub proof fn law_totals_are_told_in_gigabytes(b: Option<BandwidthNow>, secs: i64, rx: int, tx: int)
    ensures
        text::contains(
            bandwidth_page(b, secs, rx, tx),
            "Total over "@ + display::window_text(secs as int) + ": ↓ "@ + display::signed_quotient(
                rx,
                1_000_000_000,
                2,
            ) + " GB · ↑ "@ + display::signed_quotient(tx, 1_000_000_000, 2) + " GB\n"@,
        ),
        b is Some ==> text::contains(
            bandwidth_page(b, secs, rx, tx),
            "Live: "@ + watch::rates(b->0) + "\n"@,
        ),
        b is None
            ==> text::contains(bandwidth_page(b, secs, rx, tx), "no bandwidth samples yet\n"@),
{
    let p = seq![
        match b {
            Some(x) => "Live: "@ + watch::rates(x) + "\n"@,
            None => "no bandwidth samples yet\n"@,
        },
        "Total over "@,
        display::window_text(secs as int),
        ": ↓ "@,
        display::signed_quotient(rx, 1_000_000_000, 2),
        " GB · ↑ "@,
        display::signed_quotient(tx, 1_000_000_000, 2),
        " GB\n"@,
    ];
    text::lemma_together_last(p, 8);
    text::lemma_together_last(p, 7);
    text::lemma_together_last(p, 6);
    text::lemma_together_last(p, 5);
    text::lemma_together_last(p, 4);
    text::lemma_together_last(p, 3);
    text::lemma_together_last(p, 2);
    assert(p.take(8) == p);
    assert(text::together(p.take(1)) == p[0]);
    assert(text::together(p) == bandwidth_page(b, secs, rx, tx));
    let m = seq![p[1], p[2], p[3], p[4], p[5], p[6], p[7]];
    assert(p.subrange(1, 8) == m);
    text::lemma_neighbours_are_found(p, 1, 8);
    text::lemma_together_last(m, 7);
    text::lemma_together_last(m, 6);
    text::lemma_together_last(m, 5);
    text::lemma_together_last(m, 4);
    text::lemma_together_last(m, 3);
    text::lemma_together_last(m, 2);
    assert(m.take(7) == m);
    assert(text::together(m.take(1)) == m[0]);
    text::lemma_neighbours_are_found(p, 0, 1);
    assert(p.subrange(0, 1) == seq![p[0]]);
    assert(text::together(seq![p[0]]) == p[0]);
}

/// The report of the last `secs` seconds.
pub open spec fn report_of(s: Store, now: i64, secs: i64) -> Seq<char> {
    report_page(
        secs,
        summary::reliability(s.connectivity@, s.outages@, display::start_of(now, secs)),
        summary::qoe_mean(s.qoe@, display::half_hour_before(now)),
    )
}

/// The resolvers over the last `secs` seconds.
pub open spec fn dns_of(s: Store, now: i64, secs: i64) -> Seq<char> {
    dns_page(summary::comparison(s.dns@, display::start_of(now, secs)))
}

/// The export of a table over the last `secs` seconds. Any table but `events` is the
/// connectivity table.
pub open spec fn export_of(s: Store, kind: Seq<char>, now: i64, secs: i64) -> Seq<char> {
    if kind == "events"@ {
        crate::export::events_csv(s.events@, display::start_of(now, secs))
    } else {
        crate::export::connectivity_csv(s.connectivity@, display::start_of(now, secs))
    }
}

/// Reports, resolvers and exports go back as many seconds as they are asked for, and the
/// scores of a report half an hour.
pub proof fn law_pages_reach_back_their_window(s: Store, kind: Seq<char>, now: i64, secs: i64)
    requires
        0 <= secs * 1000 <= i64::MAX,
        now - secs * 1000 >= i64::MIN,
        now >= i64::MIN + 1_800_000,
    ensures
        ({
            let since = (now - 1000 * secs) as i64;
            &&& report_of(s, now, secs) == report_page(
                secs,
                summary::reliability(s.connectivity@, s.outages@, since),
                summary::qoe_mean(s.qoe@, (now - 30 * 60 * 1000) as i64),
            )
            &&& dns_of(s, now, secs) == dns_page(summary::comparison(s.dns@, since))
            &&& kind == "events"@ ==> export_of(s, kind, now, secs) == crate::export::events_csv(
                s.events@,
                since,
            )
            &&& kind != "events"@ ==> export_of(s, kind, now, secs)
                == crate::export::connectivity_csv(s.connectivity@, since)
        }),
{
    display::law_windows_reach_back(now, secs);
}

/// The program that a speed test runs.
pub open spec fn program(configured: Option<Seq<char>>, beside: Option<Seq<char>>) -> Seq<char> {
    if configured is Some && configured->0.len() > 0 {
        configured->0
    } else if beside is Some {
        beside->0
    } else {
        "librespeed-cli"@
    }
}

/// The configured program goes before the one beside, and that before the one on the search
/// path. An empty setting is none.
pub proof fn law_configured_program_goes_first(c: Seq<char>, b: Seq<char>)
    ensures
        c.len() > 0 ==> program(Some(c), Some(b)) == c && program(Some(c), None) == c,
        c.len() == 0 ==> program(Some(c), Some(b)) == b && program(Some(c), None)
            == "librespeed-cli"@,
        program(None, Some(b)) == b,
        program(None, None) == "librespeed-cli"@,
{
}

/// The present rates and the totals of the last `secs` seconds, where a number holds them.
pub open spec fn bandwidth_of(s: Store, now: i64, secs: i64) -> Option<Seq<char>> {
    let since = display::start_of(now, secs);
    let rx = tables::rx_since(s.interfaces@, since);
    let tx = tables::tx_since(s.interfaces@, since);
    if tables::fits_i64(rx) && tables::fits_i64(tx) {
        Some(bandwidth_page(tables::newest_in(s.bandwidth@), secs, rx, tx))
    } else {
        None
    }
}

/// The export of a table by its name, since a time.
pub open spec fn csv_of(s: Store, kind: Seq<char>, since: i64) -> Option<Seq<char>> {
    if kind == "events"@ {
        Some(crate::export::events_csv(s.events@, since))
    } else if kind == "connectivity"@ {
        Some(crate::export::connectivity_csv(s.connectivity@, since))
    } else {
        None
    }
}

/// Totals count what was moved in the window, and tables are exported by their names.
pub proof fn law_totals_reach_back_their_window(s: Store, kind: Seq<char>, now: i64, secs: i64)
    requires
        0 <= secs * 1000 <= i64::MAX,
        now - secs * 1000 >= i64::MIN,
    ensures
        ({
            let rx = tables::rx_since(s.interfaces@, (now - 1000 * secs) as i64);
            let tx = tables::tx_since(s.interfaces@, (now - 1000 * secs) as i64);
            let t = bandwidth_of(s, now, secs);
            &&& t is Some <==> i64::MIN <= rx <= i64::MAX && i64::MIN <= tx <= i64::MAX
            &&& t is Some ==> t->0 == bandwidth_page(tables::newest_in(s.bandwidth@), secs, rx, tx)
        }),
        csv_of(s, "events"@, now) == Some(crate::export::events_csv(s.events@, now)),
        csv_of(s, "connectivity"@, now) == Some(
            crate::export::connectivity_csv(s.connectivity@, now),
        ),
        kind != "events"@ && kind != "connectivity"@ ==> csv_of(s, kind, now) is None,
{
    display::law_windows_reach_back(now, secs);
    reveal_strlit("events");
    reveal_strlit("connectivity");
    assert("events"@.len() != "connectivity"@.len());
}

} // verus!
