//! The rows that the store keeps.
//!
//! Times are unix milliseconds. Decimal quantities are in billionths of the
//! unit in their name; those that come from a tool's output are `Reading`s.

use vstd::prelude::*;

use crate::number::Reading;
use crate::text;

verus! {

/// A configured probe target.
#[derive(Clone, Debug, PartialEq, Eq)]
pub struct Target {
    pub id: i64,
    pub label: String,
    pub host: String,
    pub kind: String,
    pub ip_version: Option<i64>,
    pub enabled: bool,
    pub created_at: i64,
}

/// What is needed to create a target.
#[derive(Clone, Debug, PartialEq, Eq)]
pub struct NewTarget {
    pub label: String,
    pub host: String,
    pub kind: String,
    pub ip_version: Option<i64>,
    pub enabled: bool,
    pub created_at: i64,
}

/// A setting, stored as text.
#[derive(Clone, Debug, PartialEq, Eq)]
pub struct Setting {
    pub key: String,
    pub value: String,
    pub updated_at: i64,
}

/// The result of one probe cycle, ready to be stored.
#[derive(Clone, Copy, Debug, PartialEq, Eq)]
pub struct NewConnectivitySample {
    pub ts: i64,
    pub target_id: i64,
    pub ip_version: i64,
    pub sent: i64,
    pub received: i64,
    pub loss_pct: u64,
    pub rtt_min: Option<u64>,
    pub rtt_avg: Option<u64>,
    pub rtt_max: Option<u64>,
    pub rtt_jitter: Option<u64>,
    pub up: bool,
}

/// A stored connectivity sample.
#[derive(Clone, Copy, Debug, PartialEq, Eq)]
pub struct ConnectivitySample {
    pub id: i64,
    pub ts: i64,
    pub target_id: i64,
    pub ip_version: i64,
    pub sent: i64,
    pub received: i64,
    pub loss_pct: u64,
    pub rtt_min: Option<u64>,
    pub rtt_avg: Option<u64>,
    pub rtt_max: Option<u64>,
    pub rtt_jitter: Option<u64>,
    pub up: bool,
}

/// A discrete event: a disconnect, a reconnect, a roam and the like.
#[derive(Clone, Debug, PartialEq, Eq)]
pub struct Event {
    pub id: i64,
    pub ts: i64,
    pub kind: String,
    pub severity: String,
    pub duration_ms: Option<i64>,
    pub payload: Option<String>,
}

/// The cause of an outage in which every internet target was unreachable. An
/// outage opens with it, and keeps it if the device was sampling throughout.
pub const OUTAGE_CAUSE_REAL: &'static str = "all internet targets unreachable";

/// The cause of an outage that was no drop: the device was asleep or off.
pub const OUTAGE_CAUSE_GAP: &'static str = "device was asleep/off";

/// An internet outage, ongoing while it has no end.
#[derive(Clone, Debug, PartialEq, Eq)]
pub struct Outage {
    pub id: i64,
    pub ts_start: i64,
    pub ts_end: Option<i64>,
    pub duration_ms: Option<i64>,
    pub reconnect_ms: Option<i64>,
    pub cause: Option<String>,
}

/// The outage was put down to this cause.
pub open spec fn is_put_down_to(o: Outage, cause: Seq<char>) -> bool {
    text::opt_text(o.cause) == Some(cause)
}

impl Outage {
    /// Whether the outage was put down to this cause.
    pub fn put_down_to(&self, cause: &str) -> (r: bool)
        ensures
            r == is_put_down_to(*self, cause@),
    {
        match &self.cause {
            Some(c) => text::same_str(c.as_str(), cause),
            None => false,
        }
    }
}

/// The aggregate bandwidth of a cycle, in bits per second.
#[derive(Clone, Copy, Debug, PartialEq, Eq)]
pub struct BandwidthNow {
    pub ts: i64,
    pub rx_bps: i64,
    pub tx_bps: i64,
}

/// Bytes moved over a window.
#[derive(Clone, Copy, Debug, PartialEq, Eq)]
pub struct BandwidthTotals {
    pub rx_bytes: i64,
    pub tx_bytes: i64,
}

/// Bytes of an interface in a cycle, or a ping of the gateway.
#[derive(Clone, Debug, PartialEq, Eq)]
pub struct InterfaceSample {
    pub ts: i64,
    pub iface: String,
    pub rx_bytes: Option<i64>,
    pub tx_bytes: Option<i64>,
    pub gateway_rtt_ms: Option<Reading>,
    pub lan_loss_pct: Option<Reading>,
}

/// The latest ping of the gateway.
#[derive(Clone, Copy, Debug, PartialEq, Eq)]
pub struct GatewaySample {
    pub ts: i64,
    pub gateway_rtt_ms: Option<Reading>,
    pub lan_loss_pct: Option<Reading>,
}

/// The totals of interface errors and drops at a time.
#[derive(Clone, Copy, Debug, PartialEq, Eq)]
pub struct InterfaceErrorSample {
    pub ts: i64,
    pub rx_errors: i64,
    pub rx_drops: i64,
    pub tx_errors: i64,
    pub tx_drops: i64,
}

/// A speed-test result.
#[derive(Clone, Debug, PartialEq, Eq)]
pub struct SpeedtestRow {
    pub ts: i64,
    pub engine: Option<String>,
    pub server: Option<String>,
    pub download_mbps: Option<Reading>,
    pub upload_mbps: Option<Reading>,
    pub ping_ms: Option<Reading>,
    pub jitter_ms: Option<Reading>,
    pub idle_latency_ms: Option<Reading>,
    pub loaded_latency_ms: Option<Reading>,
    pub bufferbloat_grade: Option<String>,
}

impl Default for SpeedtestRow {
    fn default() -> (r: SpeedtestRow)
        ensures
            r.ts == 0,
            r.engine is None && r.server is None && r.bufferbloat_grade is None,
            r.download_mbps is None && r.upload_mbps is None && r.ping_ms is None,
            r.jitter_ms is None && r.idle_latency_ms is None && r.loaded_latency_ms is None,
    {
        SpeedtestRow {
            ts: 0,
            engine: None,
            server: None,
            download_mbps: None,
            upload_mbps: None,
            ping_ms: None,
            jitter_ms: None,
            idle_latency_ms: None,
            loaded_latency_ms: None,
            bufferbloat_grade: None,
        }
    }
}

/// A Wi-Fi link sample.
#[derive(Clone, Debug, PartialEq, Eq)]
pub struct WifiSample {
    pub ts: i64,
    pub ssid: Option<String>,
    pub bssid: Option<String>,
    pub rssi_dbm: Option<i64>,
    pub quality_pct: Option<Reading>,
    pub link_speed_mbps: Option<Reading>,
    pub band: Option<String>,
    pub channel: Option<i64>,
}

impl Default for WifiSample {
    fn default() -> (r: WifiSample)
        ensures
            r.ts == 0,
            r.ssid is None && r.bssid is None && r.rssi_dbm is None && r.quality_pct is None,
            r.link_speed_mbps is None && r.band is None && r.channel is None,
    {
        WifiSample {
            ts: 0,
            ssid: None,
            bssid: None,
            rssi_dbm: None,
            quality_pct: None,
            link_speed_mbps: None,
            band: None,
            channel: None,
        }
    }
}

/// A LAN device, known by its MAC.
#[derive(Clone, Debug, PartialEq, Eq)]
pub struct Device {
    pub id: i64,
    pub mac: Option<String>,
    pub hostname: Option<String>,
    pub ip: Option<String>,
    pub vendor: Option<String>,
    pub first_seen: i64,
    pub last_seen: i64,
    pub is_active: bool,
}

/// A traceroute hop.
#[derive(Clone, Debug, PartialEq, Eq)]
pub struct TracerouteHop {
    pub hop_no: i64,
    pub ip: Option<String>,
    pub hostname: Option<String>,
    pub rtt_ms: Option<Reading>,
    pub loss_pct: Option<Reading>,
    pub asn: Option<String>,
    pub as_name: Option<String>,
}

/// A stored traceroute hop.
pub type TracerouteHopRow = TracerouteHop;

/// A traceroute with its hops.
#[derive(Clone, Debug, PartialEq, Eq)]
pub struct TracerouteView {
    pub id: i64,
    pub ts: i64,
    pub target: String,
    pub hop_count: i64,
    pub route_hash: String,
    pub hops: Vec<TracerouteHopRow>,
}

/// A security-posture snapshot. A field is `None` where a probe could not tell.
#[derive(Clone, Debug, PartialEq, Eq)]
pub struct SecuritySnapshot {
    pub ts: i64,
    pub public_ip: Option<String>,
    pub nat_type: Option<String>,
    pub upnp_enabled: Option<bool>,
    pub firewall_active: Option<bool>,
    pub vpn_detected: Option<bool>,
    pub doh_active: Option<bool>,
    pub dot_active: Option<bool>,
    /// JSON array of ports that something listens on locally.
    pub open_ports: Option<String>,
}

impl Default for SecuritySnapshot {
    fn default() -> (r: SecuritySnapshot)
        ensures
            r.ts == 0,
            r.public_ip is None && r.nat_type is None && r.upnp_enabled is None,
            r.firewall_active is None && r.vpn_detected is None && r.doh_active is None,
            r.dot_active is None && r.open_ports is None,
    {
        SecuritySnapshot {
            ts: 0,
            public_ip: None,
            nat_type: None,
            upnp_enabled: None,
            firewall_active: None,
            vpn_detected: None,
            doh_active: None,
            dot_active: None,
            open_ports: None,
        }
    }
}

/// One DNS lookup.
#[derive(Clone, Debug, PartialEq, Eq)]
pub struct DnsSample {
    pub ts: i64,
    pub resolver: String,
    pub query_host: String,
    pub lookup_ms: Option<u64>,
    pub success: bool,
    pub cached: Option<bool>,
}

/// DNS performance of one resolver over a window.
#[derive(Clone, Debug, PartialEq, Eq)]
pub struct DnsResolverStat {
    pub resolver: String,
    pub avg_ms: Option<u64>,
    pub count: u64,
    pub failures: u64,
}

/// A resolver's performance as plain values.
#[verifier::ext_equal]
pub struct StatView {
    pub resolver: Seq<char>,
    pub avg_ms: Option<u64>,
    pub count: u64,
    pub failures: u64,
}

impl View for DnsResolverStat {
    type V = StatView;

    open spec fn view(&self) -> StatView {
        StatView {
            resolver: self.resolver@,
            avg_ms: self.avg_ms,
            count: self.count,
            failures: self.failures,
        }
    }
}

pub open spec fn stat_views(v: Seq<DnsResolverStat>) -> Seq<StatView> {
    v.map_values(|s: DnsResolverStat| s@)
}

/// The quality scores of a cycle.
#[derive(Clone, Copy, Debug, PartialEq, Eq)]
pub struct QoeScore {
    pub ts: i64,
    pub gaming: u64,
    pub video_call: u64,
    pub streaming: u64,
    pub web: u64,
    pub voip: u64,
}

/// Mean scores over a window, of `samples` cycles.
#[derive(Clone, Copy, Debug, PartialEq, Eq)]
pub struct QoeAverage {
    pub samples: u64,
    pub gaming: Option<u64>,
    pub video_call: Option<u64>,
    pub streaming: Option<u64>,
    pub web: Option<u64>,
    pub voip: Option<u64>,
}

/// A metric that is rolled up.
#[derive(Clone, Copy, Debug, PartialEq, Eq, Structural)]
pub enum Metric {
    Latency,
    Loss,
    Jitter,
}

impl Metric {
    pub open spec fn spec_label(self) -> Seq<char> {
        match self {
            Metric::Latency => "latency"@,
            Metric::Loss => "loss"@,
            Metric::Jitter => "jitter"@,
        }
    }

    /// The metric's name.
    pub fn label(&self) -> (r: &'static str)
        ensures
            r@ == self.spec_label(),
    {
        match self {
            Metric::Latency => "latency",
            Metric::Loss => "loss",
            Metric::Jitter => "jitter",
        }
    }
}

/// The span of a rollup.
#[derive(Clone, Copy, Debug, PartialEq, Eq, Structural)]
pub enum Bucket {
    Hour,
    Day,
}

impl Bucket {
    pub open spec fn spec_label(self) -> Seq<char> {
        match self {
            Bucket::Hour => "hour"@,
            Bucket::Day => "day"@,
        }
    }

    /// The bucket's name.
    pub fn label(&self) -> (r: &'static str)
        ensures
            r@ == self.spec_label(),
    {
        match self {
            Bucket::Hour => "hour",
            Bucket::Day => "day",
        }
    }

    pub open spec fn spec_millis(self) -> int {
        match self {
            Bucket::Hour => 3_600_000,
            Bucket::Day => 86_400_000,
        }
    }

    /// The span in milliseconds.
    pub fn millis(&self) -> (r: i64)
        ensures
            r == self.spec_millis(),
    {
        match self {
            Bucket::Hour => 3_600_000,
            Bucket::Day => 86_400_000,
        }
    }
}

/// One aggregated bucket of a metric; target 0 is the series over all targets.
#[derive(Clone, Copy, Debug, PartialEq, Eq, Structural)]
pub struct Rollup {
    pub metric: Metric,
    pub target_id: i64,
    pub bucket: Bucket,
    pub bucket_ts: i64,
    pub count: u64,
    pub min: u64,
    pub avg: u64,
    pub max: u64,
    pub p50: u64,
    pub p95: u64,
    pub sum: u128,
    /// Some of the samples that it sums up were pruned.
    pub pruned: bool,
}

/// Reliability over a window.
#[derive(Clone, Copy, Debug, PartialEq, Eq)]
pub struct Reliability {
    pub samples: u64,
    pub up_samples: u64,
    pub uptime_pct: u64,
    pub avg_latency_ms: Option<u64>,
    pub avg_loss_pct: Option<u64>,
    pub avg_jitter_ms: Option<u64>,
    pub disconnects: u64,
}

/// The latest status of one target.
#[derive(Clone, Debug, PartialEq, Eq)]
pub struct TargetStatus {
    pub id: i64,
    pub label: String,
    pub host: String,
    pub ip_version: Option<i64>,
    pub rtt_avg: Option<u64>,
    pub rtt_jitter: Option<u64>,
    pub loss_pct: Option<u64>,
    pub up: Option<bool>,
    pub ts: Option<i64>,
}

/// A target's status as plain values.
#[verifier::ext_equal]
pub struct StatusView {
    pub id: i64,
    pub label: Seq<char>,
    pub host: Seq<char>,
    pub ip_version: Option<i64>,
    pub rtt_avg: Option<u64>,
    pub rtt_jitter: Option<u64>,
    pub loss_pct: Option<u64>,
    pub up: Option<bool>,
    pub ts: Option<i64>,
}

impl View for TargetStatus {
    type V = StatusView;

    open spec fn view(&self) -> StatusView {
        StatusView {
            id: self.id,
            label: self.label@,
            host: self.host@,
            ip_version: self.ip_version,
            rtt_avg: self.rtt_avg,
            rtt_jitter: self.rtt_jitter,
            loss_pct: self.loss_pct,
            up: self.up,
            ts: self.ts,
        }
    }
}

pub open spec fn status_views(v: Seq<TargetStatus>) -> Seq<StatusView> {
    v.map_values(|s: TargetStatus| s@)
}

/// A copy of an optional text.
pub fn copy_text(o: &Option<String>) -> (r: Option<String>)
    ensures
        r == *o,
{
    match o {
        Some(s) => Some(s.clone()),
        None => None,
    }
}

/// An owned copy of an optional text.
pub fn own_text(o: Option<&str>) -> (r: Option<String>)
    ensures
        text::opt_text(r) == text::str_view(o),
{
    match o {
        Some(s) => Some(s.to_string()),
        None => None,
    }
}

impl SpeedtestRow {
    /// A copy of the row.
    pub fn copy(&self) -> (r: SpeedtestRow)
        ensures
            r == *self,
    {
        SpeedtestRow {
            ts: self.ts,
            engine: copy_text(&self.engine),
            server: copy_text(&self.server),
            download_mbps: self.download_mbps,
            upload_mbps: self.upload_mbps,
            ping_ms: self.ping_ms,
            jitter_ms: self.jitter_ms,
            idle_latency_ms: self.idle_latency_ms,
            loaded_latency_ms: self.loaded_latency_ms,
            bufferbloat_grade: copy_text(&self.bufferbloat_grade),
        }
    }
}

impl WifiSample {
    /// A copy of the row.
    pub fn copy(&self) -> (r: WifiSample)
        ensures
            r == *self,
    {
        WifiSample {
            ts: self.ts,
            ssid: copy_text(&self.ssid),
            bssid: copy_text(&self.bssid),
            rssi_dbm: self.rssi_dbm,
            quality_pct: self.quality_pct,
            link_speed_mbps: self.link_speed_mbps,
            band: copy_text(&self.band),
            channel: self.channel,
        }
    }
}

impl SecuritySnapshot {
    /// A copy of the row.
    pub fn copy(&self) -> (r: SecuritySnapshot)
        ensures
            r == *self,
    {
        SecuritySnapshot {
            ts: self.ts,
            public_ip: copy_text(&self.public_ip),
            nat_type: copy_text(&self.nat_type),
            upnp_enabled: self.upnp_enabled,
            firewall_active: self.firewall_active,
            vpn_detected: self.vpn_detected,
            doh_active: self.doh_active,
            dot_active: self.dot_active,
            open_ports: copy_text(&self.open_ports),
        }
    }
}

impl TracerouteHop {
    /// A copy of the hop.
    pub fn copy(&self) -> (r: TracerouteHop)
        ensures
            r == *self,
    {
        TracerouteHop {
            hop_no: self.hop_no,
            ip: copy_text(&self.ip),
            hostname: copy_text(&self.hostname),
            rtt_ms: self.rtt_ms,
            loss_pct: self.loss_pct,
            asn: copy_text(&self.asn),
            as_name: copy_text(&self.as_name),
        }
    }
}

// ---------------------------------------------------------------------------
// Rows with a time
// ---------------------------------------------------------------------------

/// A row that is ordered by a time.
pub trait Stamped {
    spec fn stamp(&self) -> i64;

    fn ts(&self) -> (r: i64)
        ensures
            r == self.stamp(),
    ;
}

impl Stamped for ConnectivitySample {
    open spec fn stamp(&self) -> i64 {
        self.ts
    }

    fn ts(&self) -> (r: i64) {
        self.ts
    }
}

impl Stamped for Event {
    open spec fn stamp(&self) -> i64 {
        self.ts
    }

    fn ts(&self) -> (r: i64) {
        self.ts
    }
}

impl Stamped for Outage {
    open spec fn stamp(&self) -> i64 {
        self.ts_start
    }

    fn ts(&self) -> (r: i64) {
        self.ts_start
    }
}

impl Stamped for BandwidthNow {
    open spec fn stamp(&self) -> i64 {
        self.ts
    }

    fn ts(&self) -> (r: i64) {
        self.ts
    }
}

impl Stamped for InterfaceSample {
    open spec fn stamp(&self) -> i64 {
        self.ts
    }

    fn ts(&self) -> (r: i64) {
        self.ts
    }
}

impl Stamped for SpeedtestRow {
    open spec fn stamp(&self) -> i64 {
        self.ts
    }

    fn ts(&self) -> (r: i64) {
        self.ts
    }
}

impl Stamped for WifiSample {
    open spec fn stamp(&self) -> i64 {
        self.ts
    }

    fn ts(&self) -> (r: i64) {
        self.ts
    }
}

impl Stamped for Device {
    open spec fn stamp(&self) -> i64 {
        self.last_seen
    }

    fn ts(&self) -> (r: i64) {
        self.last_seen
    }
}

impl Stamped for TracerouteView {
    open spec fn stamp(&self) -> i64 {
        self.ts
    }

    fn ts(&self) -> (r: i64) {
        self.ts
    }
}

impl Stamped for SecuritySnapshot {
    open spec fn stamp(&self) -> i64 {
        self.ts
    }

    fn ts(&self) -> (r: i64) {
        self.ts
    }
}

/// The times of a table's rows.
pub open spec fn stamps<T: Stamped>(rows: Seq<T>) -> Seq<i64> {
    rows.map_values(|r: T| r.stamp())
}

pub fn stamps_of<T: Stamped>(rows: &Vec<T>) -> (r: Vec<i64>)
    ensures
        r@ == stamps(rows@),
{
    let mut out: Vec<i64> = Vec::new();
    let mut i: usize = 0;
    while i < rows.len()
        invariant
            i <= rows.len(),
            out@ == stamps(rows@).take(i as int),
        decreases rows.len() - i,
    {
        out.push(rows[i].ts());
        assert(out@ == stamps(rows@).take(i + 1));
        i += 1;
    }
    assert(out@ == stamps(rows@));
    out
}

/// Rows are ordered by the time of their measurement, outages by their start and
/// devices by when they were last seen.
pub proof fn law_rows_are_dated(
    s: ConnectivitySample,
    e: Event,
    o: Outage,
    b: BandwidthNow,
    i: InterfaceSample,
    p: SpeedtestRow,
    w: WifiSample,
    d: Device,
    t: TracerouteView,
    c: SecuritySnapshot,
)
    ensures
        s.stamp() == s.ts,
        e.stamp() == e.ts,
        o.stamp() == o.ts_start,
        b.stamp() == b.ts,
        i.stamp() == i.ts,
        p.stamp() == p.ts,
        w.stamp() == w.ts,
        d.stamp() == d.last_seen,
        t.stamp() == t.ts,
        c.stamp() == c.ts,
{
}

/// Statuses and figures are taken field by field.
pub proof fn law_rows_are_taken_as_they_are(t: TargetStatus, s: DnsResolverStat)
    ensures
        t@.id == t.id && t@.label == t.label@ && t@.host == t.host@,
        t@.ip_version == t.ip_version && t@.up == t.up && t@.ts == t.ts,
        t@.rtt_avg == t.rtt_avg && t@.rtt_jitter == t.rtt_jitter && t@.loss_pct == t.loss_pct,
        s@.resolver == s.resolver@ && s@.avg_ms == s.avg_ms,
        s@.count == s.count && s@.failures == s.failures,
{
}

} // verus!
