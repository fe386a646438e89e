//! The live dashboard: which sections it shows and what each tick draws.

use std::collections::VecDeque;

use vstd::prelude::*;

use crate::display;
use crate::number;
use crate::order;
use crate::rows;
use crate::rows::{
    BandwidthNow, Device, DnsResolverStat, Event, GatewaySample, QoeAverage, Reliability,
    SecuritySnapshot, TargetStatus, TracerouteView, WifiSample,
};
use crate::stats;
use crate::store::Store;
use crate::summary;
use crate::tables;
use crate::text;

verus! {

// ---------------------------------------------------------------------------
// Sections
// ---------------------------------------------------------------------------

/// The sections' keys, in the order in which they are drawn.
pub open spec fn section_keys() -> Seq<Seq<char>> {
    seq![
        "status"@,
        "reliability"@,
        "qoe"@,
        "sparkline"@,
        "wifi"@,
        "bandwidth"@,
        "security"@,
        "devices"@,
        "route"@,
        "dns"@,
        "events"@,
    ]
}

pub open spec fn keys(v: Seq<&'static str>) -> Seq<Seq<char>> {
    v.map_values(|s: &'static str| s@)
}

pub fn all_sections() -> (r: Vec<&'static str>)
    ensures
        keys(r@) == section_keys(),
{
    let r = vec![
        "status",
        "reliability",
        "qoe",
        "sparkline",
        "wifi",
        "bandwidth",
        "security",
        "devices",
        "route",
        "dns",
        "events",
    ];
    assert(keys(r@) == section_keys());
    r
}

/// Whether a comma-separated list names a key.
pub open spec fn names(list: Seq<char>, key: Seq<char>) -> bool {
    exists|i: int|
        0 <= i < text::split(list, ',').len() && text::trim(#[trigger] text::split(list, ',')[i])
            == key
}

/// The sections to show: with `only` those that it names, otherwise all but
/// those that `hidden` names.
pub open spec fn shown(hidden: Option<Seq<char>>, only: Option<Seq<char>>, key: Seq<char>) -> bool {
    match (only, hidden) {
        (Some(o), _) => names(o, key),
        (None, Some(h)) => !names(h, key),
        (None, None) => true,
    }
}

/// The names in a list that are no section.
pub open spec fn unknown_names(parts: Seq<Seq<char>>) -> Seq<Seq<char>>
    decreases parts.len(),
{
    if parts.len() == 0 {
        Seq::empty()
    } else {
        let before = unknown_names(parts.drop_last());
        let t = text::trim(parts.last());
        if t.len() > 0 && !section_keys().contains(t) {
            before.push(t)
        } else {
            before
        }
    }
}

/// The chosen sections, and the names that are no section.
pub struct Sections {
    pub enabled: Vec<&'static str>,
    pub unknown: Vec<String>,
}

fn list_names(parts: &Vec<&[char]>, key: &str) -> (r: bool)
    ensures
        r == exists|i: int|
            0 <= i < text::views(parts@).len() && text::trim(#[trigger] text::views(parts@)[i])
                == key@,
{
    let ghost v = text::views(parts@);
    let mut i: usize = 0;
    while i < parts.len()
        invariant
            i <= parts.len(),
            v == text::views(parts@),
            forall|k: int| 0 <= k < i ==> text::trim(#[trigger] v[k]) != key@,
        decreases parts.len() - i,
    {
        assert(v[i as int] == parts@[i as int]@);
        if text::same(text::trimmed(parts[i]), key) {
            return true;
        }
        i += 1;
    }
    false
}

fn is_section(s: &[char]) -> (r: bool)
    ensures
        r == section_keys().contains(s@),
{
    let all = all_sections();
    let mut i: usize = 0;
    while i < all.len()
        invariant
            i <= all.len(),
            keys(all@) == section_keys(),
            forall|k: int| 0 <= k < i ==> #[trigger] section_keys()[k] != s@,
        decreases all.len() - i,
    {
        assert(section_keys()[i as int] == all@[i as int]@);
        if text::same(s, all[i]) {
            return true;
        }
        i += 1;
    }
    assert(section_keys().len() == all@.len());
    false
}

/// Resolves the two lists into the sections to show. A name that is no section
/// is reported and otherwise ignored.
pub fn resolve_sections(hidden: Option<&str>, only: Option<&str>) -> (r: Sections)
    ensures
        keys(r.enabled@) == section_keys().filter(
            |k: Seq<char>| shown(text::str_view(hidden), text::str_view(only), k),
        ),
        r.unknown@.map_values(|s: String| s@) == (match (only, hidden) {
            (Some(o), _) => unknown_names(text::split(o@, ',')),
            (None, Some(h)) => unknown_names(text::split(h@, ',')),
            (None, None) => Seq::empty(),
        }),
{
    let given = match only {
        Some(o) => Some(o),
        None => hidden,
    };
    let chars = match given {
        Some(s) => text::chars(s),
        None => Vec::new(),
    };
    let parts: Vec<&[char]> = match given {
        Some(_) => text::pieces(&chars, ','),
        None => Vec::new(),
    };
    let ghost v = text::views(parts@);
    let ghost pred = |k: Seq<char>| shown(text::str_view(hidden), text::str_view(only), k);
    let all = all_sections();
    let ghost ks = section_keys();
    let mut enabled: Vec<&'static str> = Vec::new();
    let mut i: usize = 0;
    assert(keys(enabled@) == ks.take(0).filter(pred)) by {
        reveal(Seq::filter);
    }
    while i < all.len()
        invariant
            i <= all.len(),
            keys(all@) == ks,
            ks == section_keys(),
            v == text::views(parts@),
            given is Some ==> v == text::split(given->0@, ','),
            given == (match only {
                Some(o) => Some(o),
                None => hidden,
            }),
            pred == (|k: Seq<char>| shown(text::str_view(hidden), text::str_view(only), k)),
            keys(enabled@) == ks.take(i as int).filter(pred),
        decreases all.len() - i,
    {
        let ghost before = keys(enabled@);
        proof {
            reveal(Seq::filter);
            assert(ks.take(i + 1).drop_last() == ks.take(i as int));
            assert(ks.take(i + 1).last() == all@[i as int]@);
        }
        let named = list_names(&parts, all[i]);
        let keep = match only {
            Some(_) => named,
            None => match hidden {
                Some(_) => !named,
                None => true,
            },
        };
        if keep {
            enabled.push(all[i]);
            assert(keys(enabled@) == before.push(all@[i as int]@));
        }
        i += 1;
    }
    assert(ks.take(ks.len() as int) == ks);
    let mut unknown: Vec<String> = Vec::new();
    let mut k: usize = 0;
    assert(unknown@.map_values(|s: String| s@) == unknown_names(v.take(0)));
    while k < parts.len()
        invariant
            k <= parts.len(),
            v == text::views(parts@),
            unknown@.map_values(|s: String| s@) == unknown_names(v.take(k as int)),
        decreases parts.len() - k,
    {
        assert(v.take(k + 1).drop_last() == v.take(k as int));
        assert(v.take(k + 1).last() == parts@[k as int]@);
        let ghost before = unknown@.map_values(|s: String| s@);
        let t = text::trimmed(parts[k]);
        if t.len() > 0 && !is_section(t) {
            unknown.push(text::string(t));
            assert(unknown@.map_values(|s: String| s@) == before.push(t@));
        }
        k += 1;
    }
    assert(v.take(v.len() as int) == v);
    Sections { enabled, unknown }
}

/// Hiding and showing are opposites: of each section, naming it in `hidden` drops
/// it and naming it in `only` keeps it.
pub proof fn law_hidden_and_only_are_opposites(list: Seq<char>, key: Seq<char>)
    ensures
        shown(Some(list), None, key) <==> !shown(None, Some(list), key),
        shown(None, None, key),
{
}

fn enabled_has(enabled: &Vec<&'static str>, key: &str) -> (r: bool)
    ensures
        r == keys(enabled@).contains(key@),
{
    let ghost v = keys(enabled@);
    let mut i: usize = 0;
    while i < enabled.len()
        invariant
            i <= enabled.len(),
            v == keys(enabled@),
            forall|k: int| 0 <= k < i ==> #[trigger] v[k] != key@,
        decreases enabled.len() - i,
    {
        if text::same_str(enabled[i], key) {
            assert(v[i as int] == key@);
            return true;
        }
        i += 1;
    }
    false
}

// ---------------------------------------------------------------------------
// Banner
// ---------------------------------------------------------------------------

/// The sections' keys by name.
pub open spec fn keys_by_name() -> Seq<Seq<char>> {
    seq![
        "bandwidth"@,
        "devices"@,
        "dns"@,
        "events"@,
        "qoe"@,
        "reliability"@,
        "route"@,
        "security"@,
        "sparkline"@,
        "status"@,
        "wifi"@,
    ]
}

/// Sorting by name loses no section and adds none.
pub proof fn law_names_are_the_sections(key: Seq<char>)
    ensures
        keys_by_name().contains(key) <==> section_keys().contains(key),
{
    let (a, b) = (keys_by_name(), section_keys());
    assert(a[0] == b[5] && a[1] == b[7] && a[2] == b[9] && a[3] == b[10] && a[4] == b[2]);
    assert(a[5] == b[1] && a[6] == b[8] && a[7] == b[6] && a[8] == b[3] && a[9] == b[0]);
    assert(a[10] == b[4]);
    assert(a.len() == 11 && b.len() == 11);
    if a.contains(key) {
        let i = choose|i: int| 0 <= i < a.len() && a[i] == key;
        assert(a[i] == key);
    }
    if b.contains(key) {
        let i = choose|i: int| 0 <= i < b.len() && b[i] == key;
        assert(b[i] == key);
    }
}

/// Texts with a comma and a space between two.
pub open spec fn joined(v: Seq<Seq<char>>) -> Seq<char>
    decreases v.len(),
{
    if v.len() == 0 {
        Seq::empty()
    } else if v.len() == 1 {
        v[0]
    } else {
        joined(v.drop_last()) + ", "@ + v.last()
    }
}

/// The name in large letters.
pub open spec fn title() -> Seq<char> {
    "\n"@
        + "  _______ _____            _____ _____ _    _ __  __\n"@
        + " |__   __|  __ \\     /\\   / ____|_   _| |  | |  \\/  |\n"@
        + "    | |  | |__) |   /  \\ | |      | | | |  | | \\  / |\n"@
        + "    | |  |  _  /   / /\\ \\| |      | | | |  | | |\\/| |\n"@
        + "    | |  | | \\ \\  / ____ \\ |____ _| |_| |__| | |  | |\n"@
        + "    |_|  |_|  \\_\\/_/    \\_\\_____|_____|\\____/|_|  |_|\n"@
}

pub open spec fn banner_text(
    version: Seq<char>,
    db: Seq<char>,
    interval: nat,
    enabled: Seq<Seq<char>>,
) -> Seq<char> {
    title() + "\n  traciumd "@ + version + " — live watch\n  db:       "@ + db
        + "\n  refresh:  "@ + number::decimal_text(interval, 1_000_000_000, 1) + "s\n  sections: "@
        + joined(keys_by_name().filter(|k: Seq<char>| enabled.contains(k))) + "\n\n"@
}

fn names_in_order() -> (r: Vec<&'static str>)
    ensures
        keys(r@) == keys_by_name(),
{
    let r = vec![
        "bandwidth",
        "devices",
        "dns",
        "events",
        "qoe",
        "reliability",
        "route",
        "security",
        "sparkline",
        "status",
        "wifi",
    ];
    assert(keys(r@) == keys_by_name());
    r
}

fn section_list(enabled: &Vec<&'static str>) -> (r: String)
    ensures
        r@ == joined(keys_by_name().filter(|k: Seq<char>| keys(enabled@).contains(k))),
{
    let ghost pred = |k: Seq<char>| keys(enabled@).contains(k);
    let ghost all = keys_by_name();
    let names = names_in_order();
    let mut out = String::new();
    let mut any = false;
    let mut i: usize = 0;
    assert(all.take(0).filter(pred) == Seq::<Seq<char>>::empty()) by {
        reveal(Seq::filter);
    }
    while i < names.len()
        invariant
            i <= names.len(),
            all == keys_by_name(),
            keys(names@) == all,
            pred == (|k: Seq<char>| keys(enabled@).contains(k)),
            any == (all.take(i as int).filter(pred).len() > 0),
            out@ == joined(all.take(i as int).filter(pred)),
        decreases names.len() - i,
    {
        let ghost before = all.take(i as int).filter(pred);
        proof {
            reveal(Seq::filter);
            assert(all.take(i + 1).drop_last() == all.take(i as int));
            assert(all.take(i + 1).last() == names@[i as int]@);
            assert(before.push(names@[i as int]@).drop_last() == before);
        }
        if enabled_has(enabled, names[i]) {
            if any {
                out.append(", ");
                out.append(names[i]);
            } else {
                out = names[i].to_string();
            }
            any = true;
        }
        i += 1;
    }
    assert(all.take(all.len() as int) == all);
    out
}

fn title_text() -> (r: String)
    ensures
        r@ == title(),
{
    let mut out = "\n".to_string();
    out.append("  _______ _____            _____ _____ _    _ __  __\n");
    out.append(" |__   __|  __ \\     /\\   / ____|_   _| |  | |  \\/  |\n");
    out.append("    | |  | |__) |   /  \\ | |      | | | |  | | \\  / |\n");
    out.append("    | |  |  _  /   / /\\ \\| |      | | | |  | | |\\/| |\n");
    out.append("    | |  | | \\ \\  / ____ \\ |____ _| |_| |__| | |  | |\n");
    out.append("    |_|  |_|  \\_\\/_/    \\_\\_____|_____|\\____/|_|  |_|\n");
    out
}

/// What is shown once before the dashboard starts.
pub fn banner(version: &str, db: &str, interval: u64, enabled: &Vec<&'static str>) -> (r: String)
    ensures
        r@ == banner_text(version@, db@, interval as nat, keys(enabled@)),
{
    let mut out = title_text();
    out.append("\n  traciumd ");
    out.append(version);
    out.append(" — live watch\n  db:       ");
    out.append(db);
    out.append("\n  refresh:  ");
    number::push_decimal(&mut out, interval, 1_000_000_000, 1);
    out.append("s\n  sections: ");
    out.append(section_list(enabled).as_str());
    out.append("\n\n");
    out
}

// ---------------------------------------------------------------------------
// Columns
// ---------------------------------------------------------------------------

/// The widths of the columns that grow with the terminal: a target's label and
/// host, a device's address and a resolver's name.
#[derive(Clone, Copy, Debug, PartialEq, Eq, Structural)]
pub struct Widths {
    pub label: usize,
    pub host: usize,
    pub ip: usize,
    pub resolver: usize,
}

/// A share of the terminal's columns in percent, but no less than `floor`. The
/// terminal counts as at least 60 and at most 200 columns wide.
pub open spec fn share(cols: nat, percent: nat, floor: nat) -> nat {
    let held = if cols < 60 {
        60
    } else if cols > 200 {
        200
    } else {
        cols
    };
    if held * percent / 100 < floor {
        floor
    } else {
        held * percent / 100
    }
}

pub open spec fn widths(cols: nat) -> Widths {
    Widths {
        label: share(cols, 18, 14) as usize,
        host: share(cols, 30, 24) as usize,
        ip: share(cols, 20, 16) as usize,
        resolver: share(cols, 15, 12) as usize,
    }
}

fn share_of(cols: usize, percent: usize, floor: usize) -> (r: usize)
    requires
        percent <= 100,
    ensures
        r == share(cols as nat, percent as nat, floor as nat),
{
    let held: usize = if cols < 60 {
        60
    } else if cols > 200 {
        200
    } else {
        cols
    };
    assert(0 <= held * percent <= 20_000) by (nonlinear_arith)
        requires
            held <= 200,
            percent <= 100,
    ;
    let part: usize = held * percent / 100;
    if part < floor {
        floor
    } else {
        part
    }
}

/// The column widths for a terminal of this many columns.
pub fn column_widths(cols: usize) -> (r: Widths)
    ensures
        r == widths(cols as nat),
        r.label == share(cols as nat, 18, 14),
        r.host == share(cols as nat, 30, 24),
        r.ip == share(cols as nat, 20, 16),
        r.resolver == share(cols as nat, 15, 12),
{
    Widths {
        label: share_of(cols, 18, 14),
        host: share_of(cols, 30, 24),
        ip: share_of(cols, 20, 16),
        resolver: share_of(cols, 15, 12),
    }
}

/// Up to 80 columns the widths are 14, 24, 16 and 12; they never shrink as the
/// terminal grows, and stay the same beyond 200 columns.
pub proof fn law_columns_follow_the_terminal(cols: nat, more: nat)
    requires
        cols <= more,
    ensures
        cols <= 80 ==> widths(cols) == (Widths { label: 14, host: 24, ip: 16, resolver: 12 }),
        widths(cols).label <= widths(more).label,
        widths(cols).host <= widths(more).host,
        widths(cols).ip <= widths(more).ip,
        widths(cols).resolver <= widths(more).resolver,
        cols >= 200 ==> widths(more) == widths(cols),
{
}

// ---------------------------------------------------------------------------
// Targets
// ---------------------------------------------------------------------------

pub open spec fn state_text(s: rows::StatusView) -> Seq<char> {
    match s.up {
        Some(true) => display::measure(Some(s.rtt_avg.unwrap_or(0)), 1, " ms"@),
        Some(false) => "down"@,
        None => "—"@,
    }
}

pub fn state_of(s: &TargetStatus) -> (r: String)
    ensures
        r@ == state_text(s@),
{
    match s.up {
        Some(up) => if up {
            let rtt: u64 = match s.rtt_avg {
                Some(x) => x,
                None => 0,
            };
            display::measure_text(Some(rtt), 1, " ms")
        } else {
            "down".to_string()
        },
        None => "—".to_string(),
    }
}

pub open spec fn up_targets(v: Seq<rows::StatusView>) -> nat
    decreases v.len(),
{
    if v.len() == 0 {
        0
    } else if v.last().up == Some(true) {
        up_targets(v.drop_last()) + 1
    } else {
        up_targets(v.drop_last())
    }
}

pub fn count_up(v: &Vec<TargetStatus>) -> (r: u64)
    ensures
        r == up_targets(rows::status_views(v@)),
{
    let ghost w = rows::status_views(v@);
    let mut n: u64 = 0;
    let mut i: usize = 0;
    while i < v.len()
        invariant
            i <= v.len(),
            w == rows::status_views(v@),
            n <= i,
            n == up_targets(w.take(i as int)),
        decreases v.len() - i,
    {
        assert(w.take(i + 1).drop_last() == w.take(i as int));
        assert(w.take(i + 1).last() == v@[i as int]@);
        if let Some(up) = v[i].up {
            if up {
                n += 1;
            }
        }
        i += 1;
    }
    assert(w.take(w.len() as int) == w);
    n
}

pub open spec fn target_line(s: rows::StatusView, w: Widths) -> Seq<char> {
    "    "@ + display::left(s.label, w.label as nat) + " "@ + display::left(s.host, w.host as nat)
        + " "@ + state_text(s) + "\n"@
}

pub open spec fn target_lines(v: Seq<rows::StatusView>, w: Widths) -> Seq<char>
    decreases v.len(),
{
    if v.len() == 0 {
        Seq::empty()
    } else {
        target_lines(v.drop_last(), w) + target_line(v.last(), w)
    }
}

fn target_text(s: &TargetStatus, w: Widths) -> (r: String)
    ensures
        r@ == target_line(s@, w),
{
    let mut out = "    ".to_string();
    out.append(display::left_text(s.label.as_str(), w.label).as_str());
    out.append(" ");
    out.append(display::left_text(s.host.as_str(), w.host).as_str());
    out.append(" ");
    out.append(state_of(s).as_str());
    out.append("\n");
    out
}

/// The gateway's latency and loss.
pub open spec fn gateway_figures(g: GatewaySample) -> Seq<char> {
    display::reading_or(g.gateway_rtt_ms, 2, " ms"@, "—"@) + " · loss "@ + display::reading_or(
        g.lan_loss_pct,
        0,
        "%"@,
        "—"@,
    )
}

pub fn gateway_text(g: &GatewaySample) -> (r: String)
    ensures
        r@ == gateway_figures(*g),
{
    let mut out = display::reading_text(g.gateway_rtt_ms, 2, " ms", "—");
    out.append(" · loss ");
    out.append(display::reading_text(g.lan_loss_pct, 0, "%", "—").as_str());
    out
}

pub open spec fn status_section(
    v: Seq<rows::StatusView>,
    g: Option<GatewaySample>,
    w: Widths,
) -> Seq<char> {
    match g {
        Some(x) => target_lines(v, w) + "  gateway: "@ + gateway_figures(x) + "\n"@,
        None => if v.len() == 0 {
            "  status: no targets yet\n"@
        } else {
            target_lines(v, w)
        },
    }
}

fn draw_status(v: &Vec<TargetStatus>, g: &Option<GatewaySample>, widths: Widths) -> (r: String)
    ensures
        r@ == status_section(rows::status_views(v@), *g, widths),
{
    let ghost w = rows::status_views(v@);
    let mut out = String::new();
    let mut i: usize = 0;
    while i < v.len()
        invariant
            i <= v.len(),
            w == rows::status_views(v@),
            out@ == target_lines(w.take(i as int), widths),
        decreases v.len() - i,
    {
        assert(w.take(i + 1).drop_last() == w.take(i as int));
        assert(w.take(i + 1).last() == v@[i as int]@);
        out.append(target_text(&v[i], widths).as_str());
        i += 1;
    }
    assert(w.take(w.len() as int) == w);
    if let Some(x) = g {
        out.append("  gateway: ");
        out.append(gateway_text(x).as_str());
        out.append("\n");
    } else if v.len() == 0 {
        return "  status: no targets yet\n".to_string();
    }
    out
}

// ---------------------------------------------------------------------------
// Reliability and quality
// ---------------------------------------------------------------------------

pub open spec fn reliability_section(h: Reliability, d: Reliability) -> Seq<char> {
    "\n  last 1h : uptime "@ + number::decimal_text(h.uptime_pct as nat, 1_000_000_000, 1)
        + "%  lat "@ + display::measure(h.avg_latency_ms, 1, " ms"@) + "  loss "@ + display::measure(
        h.avg_loss_pct,
        1,
        "%"@,
    ) + "\n  last 24h: uptime "@ + number::decimal_text(d.uptime_pct as nat, 1_000_000_000, 1)
        + "%  lat "@ + display::measure(d.avg_latency_ms, 1, " ms"@) + "  loss "@ + display::measure(
        d.avg_loss_pct,
        1,
        "%"@,
    ) + "  disconnects "@ + number::dec(d.disconnects as nat) + "\n"@
}

fn draw_reliability(h: &Reliability, d: &Reliability) -> (r: String)
    ensures
        r@ == reliability_section(*h, *d),
{
    let mut out = "\n  last 1h : uptime ".to_string();
    number::push_decimal(&mut out, h.uptime_pct, 1_000_000_000, 1);
    out.append("%  lat ");
    out.append(display::measure_text(h.avg_latency_ms, 1, " ms").as_str());
    out.append("  loss ");
    out.append(display::measure_text(h.avg_loss_pct, 1, "%").as_str());
    out.append("\n  last 24h: uptime ");
    number::push_decimal(&mut out, d.uptime_pct, 1_000_000_000, 1);
    out.append("%  lat ");
    out.append(display::measure_text(d.avg_latency_ms, 1, " ms").as_str());
    out.append("  loss ");
    out.append(display::measure_text(d.avg_loss_pct, 1, "%").as_str());
    out.append("  disconnects ");
    number::push_u64(&mut out, d.disconnects);
    out.append("\n");
    out
}

/// The five scores, with whole points.
pub open spec fn score_list(q: QoeAverage) -> Seq<char> {
    "gaming "@ + display::measure(q.gaming, 0, ""@) + " · voip "@ + display::measure(q.voip, 0, ""@)
        + " · video "@ + display::measure(q.video_call, 0, ""@) + " · streaming "@ + display::measure(
        q.streaming,
        0,
        ""@,
    ) + " · web "@ + display::measure(q.web, 0, ""@)
}

pub fn scores_text(q: &QoeAverage) -> (r: String)
    ensures
        r@ == score_list(*q),
{
    let mut out = "gaming ".to_string();
    out.append(display::measure_text(q.gaming, 0, "").as_str());
    out.append(" · voip ");
    out.append(display::measure_text(q.voip, 0, "").as_str());
    out.append(" · video ");
    out.append(display::measure_text(q.video_call, 0, "").as_str());
    out.append(" · streaming ");
    out.append(display::measure_text(q.streaming, 0, "").as_str());
    out.append(" · web ");
    out.append(display::measure_text(q.web, 0, "").as_str());
    out
}

pub open spec fn qoe_section(q: Option<QoeAverage>) -> Seq<char> {
    match q {
        Some(x) => "  QoE(30m): "@ + score_list(x) + "\n"@,
        None => "  QoE(30m): no samples yet\n"@,
    }
}

fn draw_qoe(q: &Option<QoeAverage>) -> (r: String)
    ensures
        r@ == qoe_section(*q),
{
    match q {
        Some(x) => {
            let mut out = "  QoE(30m): ".to_string();
            out.append(scores_text(x).as_str());
            out.append("\n");
            out
        },
        None => "  QoE(30m): no samples yet\n".to_string(),
    }
}

pub open spec fn sparkline_section(lat: Seq<Option<u64>>, bw: Seq<Option<u64>>) -> Seq<char> {
    "\n  latency   "@ + display::spark(lat) + "\n  bandwidth "@ + display::spark(bw) + "\n"@
}

fn draw_sparklines(lat: &VecDeque<Option<u64>>, bw: &VecDeque<Option<u64>>) -> (r: String)
    ensures
        r@ == sparkline_section(lat@, bw@),
{
    let mut out = "\n  latency   ".to_string();
    out.append(display::sparkline(lat).as_str());
    out.append("\n  bandwidth ");
    out.append(display::sparkline(bw).as_str());
    out.append("\n");
    out
}

// ---------------------------------------------------------------------------
// Wi-Fi, bandwidth, security
// ---------------------------------------------------------------------------

pub open spec fn dbm(v: Option<i64>) -> Seq<char> {
    match v {
        Some(x) => number::dec_int(x as int) + " dBm"@,
        None => "—"@,
    }
}

pub open spec fn wifi_section(w: Option<WifiSample>) -> Seq<char> {
    match w {
        Some(x) => "\n  wifi: "@ + display::or_text(text::opt_text(x.ssid), "?"@) + " · "@ + dbm(
            x.rssi_dbm,
        ) + " · "@ + display::reading_or(x.link_speed_mbps, 0, " Mbps"@, "—"@) + "\n"@,
        None => "\n  wifi: not connected to Wi-Fi\n"@,
    }
}

fn draw_wifi(w: Option<&WifiSample>) -> (r: String)
    ensures
        r@ == wifi_section(tables::behind(w)),
{
    match w {
        Some(x) => {
            let level = match x.rssi_dbm {
                Some(n) => {
                    let mut t = number::i64_text(n);
                    t.append(" dBm");
                    t
                },
                None => "—".to_string(),
            };
            let mut out = "\n  wifi: ".to_string();
            out.append(display::or(&x.ssid, "?"));
            out.append(" · ");
            out.append(level.as_str());
            out.append(" · ");
            out.append(display::reading_text(x.link_speed_mbps, 0, " Mbps", "—").as_str());
            out.append("\n");
            out
        },
        None => "\n  wifi: not connected to Wi-Fi\n".to_string(),
    }
}

/// Both rates in megabits per second.
pub open spec fn rates(b: BandwidthNow) -> Seq<char> {
    "↓ "@ + display::signed_quotient(b.rx_bps as int, 1_000_000, 1) + " Mbps · ↑ "@
        + display::signed_quotient(b.tx_bps as int, 1_000_000, 1) + " Mbps"@
}

pub fn rates_text(b: &BandwidthNow) -> (r: String)
    ensures
        r@ == rates(*b),
{
    let mut out = "↓ ".to_string();
    out.append(display::quotient_of(b.rx_bps, 1_000_000, 1).as_str());
    out.append(" Mbps · ↑ ");
    out.append(display::quotient_of(b.tx_bps, 1_000_000, 1).as_str());
    out.append(" Mbps");
    out
}

pub open spec fn bandwidth_section(b: Option<BandwidthNow>) -> Seq<char> {
    match b {
        Some(x) => "  bandwidth: "@ + rates(x) + "\n"@,
        None => "  bandwidth: no samples yet\n"@,
    }
}

fn draw_bandwidth(b: Option<&BandwidthNow>) -> (r: String)
    ensures
        r@ == bandwidth_section(tables::behind(b)),
{
    match b {
        Some(x) => {
            let mut out = "  bandwidth: ".to_string();
            out.append(rates_text(x).as_str());
            out.append("\n");
            out
        },
        None => "  bandwidth: no samples yet\n".to_string(),
    }
}

pub open spec fn security_section(s: Option<SecuritySnapshot>) -> Seq<char> {
    match s {
        Some(x) => "  security: vpn "@ + display::tri_text(x.vpn_detected) + " · firewall "@
            + display::tri_text(x.firewall_active) + " · doh "@ + display::tri_text(x.doh_active)
            + " · dot "@ + display::tri_text(x.dot_active) + "\n"@,
        None => "  security: no snapshot yet\n"@,
    }
}

fn draw_security(s: Option<&SecuritySnapshot>) -> (r: String)
    ensures
        r@ == security_section(tables::behind(s)),
{
    match s {
        Some(x) => {
            let mut out = "  security: vpn ".to_string();
            out.append(display::tri(x.vpn_detected));
            out.append(" · firewall ");
            out.append(display::tri(x.firewall_active));
            out.append(" · doh ");
            out.append(display::tri(x.doh_active));
            out.append(" · dot ");
            out.append(display::tri(x.dot_active));
            out.append("\n");
            out
        },
        None => "  security: no snapshot yet\n".to_string(),
    }
}

// ---------------------------------------------------------------------------
// Devices, route, DNS, events
// ---------------------------------------------------------------------------

/// The active devices.
pub open spec fn active_devices(v: Seq<Device>) -> Seq<Device>
    decreases v.len(),
{
    if v.len() == 0 {
        Seq::empty()
    } else if v.last().is_active {
        active_devices(v.drop_last()).push(v.last())
    } else {
        active_devices(v.drop_last())
    }
}

/// A device's address, and its host name or else its MAC.
pub open spec fn device_line(d: Device, width: nat) -> Seq<char> {
    "    "@ + display::left(display::or_text(text::opt_text(d.ip), "?"@), width) + " "@
        + display::or_text(
        text::opt_text(d.hostname),
        display::or_text(text::opt_text(d.mac), ""@),
    ) + "\n"@
}

fn device_text(d: &Device, width: usize) -> (r: String)
    ensures
        r@ == device_line(*d, width as nat),
{
    let mac = display::or(&d.mac, "");
    let mut out = "    ".to_string();
    out.append(display::left_text(display::or(&d.ip, "?"), width).as_str());
    out.append(" ");
    out.append(display::or(&d.hostname, mac));
    out.append("\n");
    out
}

pub open spec fn device_lines(v: Seq<Device>, width: nat) -> Seq<char>
    decreases v.len(),
{
    if v.len() == 0 {
        Seq::empty()
    } else {
        device_lines(v.drop_last(), width) + device_line(v.last(), width)
    }
}

/// How many devices are active, the first eight of them, and how many more.
pub open spec fn devices_section(active: Seq<Device>, width: nat) -> Seq<char> {
    let head = "  devices: "@ + number::dec(active.len()) + " online\n"@;
    if active.len() > 8 {
        head + device_lines(active.take(8), width) + "    +"@ + number::dec(
            (active.len() - 8) as nat,
        ) + " more\n"@
    } else {
        head + device_lines(active, width)
    }
}

fn draw_devices(list: &Vec<&Device>, width: usize) -> (r: String)
    ensures
        r@ == devices_section(active_devices(tables::all_behind(list@)), width as nat),
{
    let ghost v = tables::all_behind(list@);
    let mut active: Vec<&Device> = Vec::new();
    let mut i: usize = 0;
    assert(tables::all_behind(active@) == active_devices(v.take(0)));
    while i < list.len()
        invariant
            i <= list.len(),
            v == tables::all_behind(list@),
            tables::all_behind(active@) == active_devices(v.take(i as int)),
        decreases list.len() - i,
    {
        assert(v.take(i + 1).drop_last() == v.take(i as int));
        let ghost before = active@;
        if list[i].is_active {
            active.push(list[i]);
            assert(tables::all_behind(active@) == tables::all_behind(before).push(v[i as int]));
        }
        i += 1;
    }
    assert(v.take(v.len() as int) == v);
    assert forall|j: int| 0 <= j < active@.len() implies *(#[trigger] active@[j])
        == active_devices(v)[j] by {
        assert(tables::all_behind(active@)[j] == *active@[j]);
    }
    let ghost all = active_devices(v);
    let n: usize = active.len();
    let shown: usize = if n > 8 { 8 } else { n };
    let mut lines = String::new();
    let mut k: usize = 0;
    assert(lines@ == device_lines(all.take(0), width as nat));
    while k < shown
        invariant
            k <= shown <= n,
            n == active@.len(),
            n == all.len(),
            forall|j: int| 0 <= j < active@.len() ==> *(#[trigger] active@[j]) == all[j],
            lines@ == device_lines(all.take(k as int), width as nat),
        decreases shown - k,
    {
        assert(all.take(k + 1).drop_last() == all.take(k as int));
        lines.append(device_text(active[k], width).as_str());
        k += 1;
    }
    assert(all.take(n as int) == all);
    let mut out = "  devices: ".to_string();
    number::push_u64(&mut out, n as u64);
    out.append(" online\n");
    out.append(lines.as_str());
    if n > 8 {
        out.append("    +");
        number::push_u64(&mut out, (n - 8) as u64);
        out.append(" more\n");
    }
    out
}

/// The last hop's latency, if there is one.
pub open spec fn last_hop(t: TracerouteView) -> Seq<char> {
    if t.hops@.len() > 0 && t.hops@.last().rtt_ms is Some {
        " · last hop "@ + display::signed(
            t.hops@.last().rtt_ms->0.billionths as int,
            1_000_000_000,
            1,
        ) + "ms"@
    } else {
        ""@
    }
}

pub open spec fn route_section(t: Option<TracerouteView>, changed: bool) -> Seq<char> {
    match t {
        Some(x) => "  route: "@ + number::dec_int(x.hop_count as int) + " hops to "@ + x.target@
            + last_hop(x) + (if changed {
            " · route changed\n"@
        } else {
            "\n"@
        }),
        None => "  route: no traceroute yet\n"@,
    }
}

fn draw_route(t: Option<&TracerouteView>, changed: bool) -> (r: String)
    ensures
        r@ == route_section(tables::behind(t), changed),
{
    match t {
        Some(x) => {
            let n: usize = x.hops.len();
            let mut last = "".to_string();
            if n > 0 {
                if let Some(rtt) = x.hops[n - 1].rtt_ms {
                    last = " · last hop ".to_string();
                    last.append(display::signed_text(rtt.billionths, 1_000_000_000, 1).as_str());
                    last.append("ms");
                }
            }
            let mut out = "  route: ".to_string();
            number::push_i64(&mut out, x.hop_count);
            out.append(" hops to ");
            out.append(x.target.as_str());
            out.append(last.as_str());
            if changed {
                out.append(" · route changed\n");
            } else {
                out.append("\n");
            }
            out
        },
        None => "  route: no traceroute yet\n".to_string(),
    }
}

/// A resolver's row: its name and mean in columns, lookups and failures.
pub open spec fn resolver_row(s: rows::StatView, width: nat) -> Seq<char> {
    display::left(s.resolver, width) + " "@ + display::right(display::measure(s.avg_ms, 1, "ms"@), 8)
        + "  "@ + number::dec(s.count as nat) + " lookups, "@ + number::dec(s.failures as nat)
        + " failures"@
}

pub fn resolver_text(s: &DnsResolverStat, width: usize) -> (r: String)
    ensures
        r@ == resolver_row(s@, width as nat),
{
    let mut out = display::left_text(s.resolver.as_str(), width);
    out.append(" ");
    out.append(
        display::right_text(display::measure_text(s.avg_ms, 1, "ms").as_str(), 8).as_str(),
    );
    out.append("  ");
    number::push_u64(&mut out, s.count);
    out.append(" lookups, ");
    number::push_u64(&mut out, s.failures);
    out.append(" failures");
    out
}

pub open spec fn dns_lines(v: Seq<rows::StatView>, width: nat) -> Seq<char>
    decreases v.len(),
{
    if v.len() == 0 {
        Seq::empty()
    } else {
        dns_lines(v.drop_last(), width) + "  dns: "@ + resolver_row(v.last(), width) + "\n"@
    }
}

pub open spec fn dns_section(v: Seq<rows::StatView>, width: nat) -> Seq<char> {
    if v.len() == 0 {
        "  dns: no samples yet\n"@
    } else {
        dns_lines(v, width)
    }
}

fn draw_dns(v: &Vec<DnsResolverStat>, width: usize) -> (r: String)
    ensures
        r@ == dns_section(rows::stat_views(v@), width as nat),
{
    let ghost w = rows::stat_views(v@);
    if v.len() == 0 {
        return "  dns: no samples yet\n".to_string();
    }
    let mut out = String::new();
    let mut i: usize = 0;
    while i < v.len()
        invariant
            i <= v.len(),
            w == rows::stat_views(v@),
            out@ == dns_lines(w.take(i as int), width as nat),
        decreases v.len() - i,
    {
        assert(w.take(i + 1).drop_last() == w.take(i as int));
        assert(w.take(i + 1).last() == v@[i as int]@);
        out.append("  dns: ");
        out.append(resolver_text(&v[i], width).as_str());
        out.append("\n");
        i += 1;
    }
    assert(w.take(w.len() as int) == w);
    out
}

/// An event's time, kind and severity.
pub open spec fn event_row(e: Event) -> Seq<char> {
    display::stamp(e.ts as int) + "  "@ + display::left(e.kind@, 12) + " "@ + e.severity@
}

pub fn event_text(e: &Event) -> (r: String)
    ensures
        r@ == event_row(*e),
{
    let mut out = display::fmt_ts(e.ts);
    out.append("  ");
    out.append(display::left_text(e.kind.as_str(), 12).as_str());
    out.append(" ");
    out.append(e.severity.as_str());
    out
}

pub open spec fn event_rows(v: Seq<Event>, indent: Seq<char>) -> Seq<char>
    decreases v.len(),
{
    if v.len() == 0 {
        Seq::empty()
    } else {
        event_rows(v.drop_last(), indent) + indent + event_row(v.last()) + "\n"@
    }
}

/// One line for each event, behind an indent.
pub fn events_text(list: &Vec<&Event>, indent: &str) -> (r: String)
    ensures
        r@ == event_rows(tables::all_behind(list@), indent@),
{
    let ghost v = tables::all_behind(list@);
    let mut out = String::new();
    let mut i: usize = 0;
    while i < list.len()
        invariant
            i <= list.len(),
            v == tables::all_behind(list@),
            out@ == event_rows(v.take(i as int), indent@),
        decreases list.len() - i,
    {
        assert(v.take(i + 1).drop_last() == v.take(i as int));
        out.append(indent);
        out.append(event_text(list[i]).as_str());
        out.append("\n");
        i += 1;
    }
    assert(v.take(v.len() as int) == v);
    out
}

pub open spec fn events_section(v: Seq<Event>) -> Seq<char> {
    if v.len() == 0 {
        "\n  recent events:\n"@ + "    none yet\n"@
    } else {
        "\n  recent events:\n"@ + event_rows(v, "    "@)
    }
}

fn draw_events(list: &Vec<&Event>) -> (r: String)
    ensures
        r@ == events_section(tables::all_behind(list@)),
{
    let mut out = "\n  recent events:\n".to_string();
    if list.len() == 0 {
        out.append("    none yet\n");
    } else {
        out.append(events_text(list, "    ").as_str());
    }
    out
}

// ---------------------------------------------------------------------------
// A tick
// ---------------------------------------------------------------------------

/// What a dashboard session remembers between ticks.
pub struct WatchState {
    pub latency: VecDeque<Option<u64>>,
    pub bandwidth: VecDeque<Option<u64>>,
    pub route_hash: Option<String>,
}

/// The latencies of the targets that have one.
pub open spec fn latencies(v: Seq<rows::StatusView>) -> Seq<u64>
    decreases v.len(),
{
    if v.len() == 0 {
        Seq::empty()
    } else {
        match v.last().rtt_avg {
            Some(x) => latencies(v.drop_last()).push(x),
            None => latencies(v.drop_last()),
        }
    }
}

fn latencies_of(v: &Vec<TargetStatus>) -> (r: Vec<u64>)
    ensures
        r@ == latencies(rows::status_views(v@)),
{
    let ghost w = rows::status_views(v@);
    let mut out: Vec<u64> = Vec::new();
    let mut i: usize = 0;
    while i < v.len()
        invariant
            i <= v.len(),
            w == rows::status_views(v@),
            out@ == latencies(w.take(i as int)),
        decreases v.len() - i,
    {
        assert(w.take(i + 1).drop_last() == w.take(i as int));
        assert(w.take(i + 1).last() == v@[i as int]@);
        if let Some(x) = v[i].rtt_avg {
            out.push(x);
        }
        i += 1;
    }
    assert(w.take(w.len() as int) == w);
    out
}

/// The received rate as a reading of the history, counted from the least
/// 64-bit number so that it is never negative. A sparkline shows differences
/// only (`display::law_sparkline_shows_differences`).
pub open spec fn rate_reading(b: Option<BandwidthNow>) -> Option<u64> {
    match b {
        Some(x) => Some((x.rx_bps - i64::MIN) as u64),
        None => None,
    }
}

/// The route's hash differs from the one that the session saw last.
pub open spec fn route_differs(seen: Option<Seq<char>>, t: Option<TracerouteView>) -> bool {
    t is Some && seen is Some && seen->0 != t->0.route_hash@
}

pub open spec fn seen_route(seen: Option<Seq<char>>, t: Option<TracerouteView>) -> Option<
    Seq<char>,
> {
    match t {
        Some(x) => Some(x.route_hash@),
        None => seen,
    }
}

/// A section's text if it is enabled.
pub open spec fn section(enabled: Seq<Seq<char>>, key: Seq<char>, body: Seq<char>) -> Seq<char> {
    if enabled.contains(key) {
        body
    } else {
        ""@
    }
}

/// The head of a frame: clear screen, title, reachability.
pub open spec fn frame_head(interval: nat, up: nat, total: nat) -> Seq<char> {
    "\x1b[2J\x1b[HTracium — live · refresh "@ + number::decimal_text(interval, 1_000_000_000, 0)
        + "s · Ctrl-C to quit\n\n  "@ + (if up > 0 {
        "● ONLINE "@
    } else {
        "○ OFFLINE"@
    }) + "   "@ + number::dec(up) + "/"@ + number::dec(total) + " targets up\n"@
}

fn draw_head(interval: u64, up: u64, total: u64) -> (r: String)
    ensures
        r@ == frame_head(interval as nat, up as nat, total as nat),
{
    let mut out = "\x1b[2J\x1b[HTracium — live · refresh ".to_string();
    number::push_decimal(&mut out, interval, 1_000_000_000, 0);
    out.append("s · Ctrl-C to quit\n\n  ");
    if up > 0 {
        out.append("● ONLINE ");
    } else {
        out.append("○ OFFLINE");
    }
    out.append("   ");
    number::push_u64(&mut out, up);
    out.append("/");
    number::push_u64(&mut out, total);
    out.append(" targets up\n");
    out
}

/// The newest ping of the gateway.
pub open spec fn newest_gateway(v: Seq<rows::InterfaceSample>) -> Option<GatewaySample> {
    match tables::newest_where(v, tables::gateway_rows(v)) {
        Some(row) => Some(
            GatewaySample {
                ts: row.ts,
                gateway_rtt_ms: row.gateway_rtt_ms,
                lan_loss_pct: row.lan_loss_pct,
            },
        ),
        None => None,
    }
}

/// One frame of the dashboard, on a terminal of `cols` columns.
pub open spec fn frame(
    s: Store,
    now: i64,
    enabled: Seq<Seq<char>>,
    interval: nat,
    cols: nat,
    lat: Seq<Option<u64>>,
    bw: Seq<Option<u64>>,
    changed: bool,
) -> Seq<char> {
    let w = widths(cols);
    let targets = summary::statuses(s.targets@, s.connectivity@);
    let hour = (now - 3_600_000) as i64;
    frame_head(interval, up_targets(targets), targets.len()) + section(
        enabled,
        "status"@,
        status_section(targets, newest_gateway(s.interfaces@), w),
    ) + section(
        enabled,
        "reliability"@,
        reliability_section(
            summary::reliability(s.connectivity@, s.outages@, hour),
            summary::reliability(s.connectivity@, s.outages@, (now - 86_400_000) as i64),
        ),
    ) + section(
        enabled,
        "qoe"@,
        qoe_section(summary::qoe_mean(s.qoe@, (now - 1_800_000) as i64)),
    ) + section(enabled, "sparkline"@, sparkline_section(lat, bw)) + section(
        enabled,
        "wifi"@,
        wifi_section(tables::newest_in(s.wifi@)),
    ) + section(enabled, "bandwidth"@, bandwidth_section(tables::newest_in(s.bandwidth@)))
        + section(
        enabled,
        "security"@,
        security_section(
            tables::newest_where(s.security@, crate::records::with_posture(s.security@)),
        ),
    ) + section(
        enabled,
        "devices"@,
        devices_section(
            active_devices(tables::newest_list(s.devices@, order::NO_LIMIT)),
            w.ip as nat,
        ),
    ) + section(enabled, "route"@, route_section(tables::newest_in(s.traceroutes@), changed))
        + section(enabled, "dns"@, dns_section(summary::comparison(s.dns@, hour), w.resolver as nat))
        + section(
        enabled,
        "events"@,
        events_section(tables::newest_list(s.events@, 3)),
    )
}

/// A text of whole lines, at least one.
pub open spec fn is_lines(s: Seq<char>) -> bool {
    s.len() > 0 && s.last() == '\n'
}

/// A section never disappears for want of data: whatever the tables hold, each
/// one writes at least one line.
pub proof fn law_sections_keep_their_slot(
    hour: Reliability,
    day: Reliability,
    lat: Seq<Option<u64>>,
    bw: Seq<Option<u64>>,
    q: Option<QoeAverage>,
    targets: Seq<rows::StatusView>,
    gateway: Option<GatewaySample>,
    wifi: Option<WifiSample>,
    bandwidth: Option<BandwidthNow>,
    security: Option<SecuritySnapshot>,
    devices: Seq<Device>,
    trace: Option<TracerouteView>,
    changed: bool,
    stats: Seq<rows::StatView>,
    events: Seq<Event>,
    w: Widths,
)
    ensures
        is_lines(status_section(targets, gateway, w)),
        is_lines(reliability_section(hour, day)),
        is_lines(qoe_section(q)),
        is_lines(sparkline_section(lat, bw)),
        is_lines(wifi_section(wifi)),
        is_lines(bandwidth_section(bandwidth)),
        is_lines(security_section(security)),
        is_lines(devices_section(devices, w.ip as nat)),
        is_lines(route_section(trace, changed)),
        is_lines(dns_section(stats, w.resolver as nat)),
        is_lines(events_section(events)),
{
    reveal_strlit("\n");
    reveal_strlit("  status: no targets yet\n");
    reveal_strlit("  QoE(30m): no samples yet\n");
    reveal_strlit("\n  wifi: not connected to Wi-Fi\n");
    reveal_strlit("  bandwidth: no samples yet\n");
    reveal_strlit("  security: no snapshot yet\n");
    reveal_strlit(" online\n");
    reveal_strlit(" more\n");
    reveal_strlit(" · route changed\n");
    reveal_strlit("  route: no traceroute yet\n");
    reveal_strlit("  dns: no samples yet\n");
    reveal_strlit("    none yet\n");
}

fn section_text(enabled: &Vec<&'static str>, key: &str, body: String) -> (r: String)
    ensures
        r@ == section(keys(enabled@), key@, body@),
{
    if enabled_has(enabled, key) {
        body
    } else {
        "".to_string()
    }
}

impl WatchState {
    /// A new session.
    pub fn new() -> (r: WatchState)
        ensures
            r.latency@.len() == 0,
            r.bandwidth@.len() == 0,
            r.route_hash is None,
    {
        WatchState { latency: VecDeque::new(), bandwidth: VecDeque::new(), route_hash: None }
    }

    /// Takes one tick of the dashboard: notes latency, bandwidth and route in
    /// the session and returns the frame for a terminal of `cols` columns. The
    /// interval is in billionths of a second.
    pub fn tick(
        &mut self,
        store: &Store,
        now: i64,
        enabled: &Vec<&'static str>,
        interval: u64,
        cols: usize,
    ) -> (r: String)
        requires
            now >= i64::MIN + 86_400_000,
        ensures
            ({
                let targets = summary::statuses(store.targets@, store.connectivity@);
                let trace = tables::newest_in(store.traceroutes@);
                let seen = text::opt_text(old(self).route_hash);
                &&& final(self).latency@ == display::pushed(
                    old(self).latency@,
                    stats::mean(latencies(targets)),
                )
                &&& final(self).bandwidth@ == display::pushed(
                    old(self).bandwidth@,
                    rate_reading(tables::newest_in(store.bandwidth@)),
                )
                &&& text::opt_text(final(self).route_hash) == seen_route(seen, trace)
                &&& r@ == frame(
                    *store,
                    now,
                    keys(enabled@),
                    interval as nat,
                    cols as nat,
                    final(self).latency@,
                    final(self).bandwidth@,
                    route_differs(seen, trace),
                )
            }),
    {
        let targets = store.latest_per_target();
        let gateway = store.latest_gateway();
        let hour = store.reliability_since(now - 3_600_000);
        let day = store.reliability_since(now - 86_400_000);
        let qoe = store.qoe_average_since(now - 1_800_000);
        let wifi = store.latest_wifi();
        let bandwidth = store.latest_bandwidth();
        let security = store.latest_security();
        let devices = store.list_devices();
        let route = store.latest_traceroute();
        let dns = store.dns_comparison(now - 3_600_000);
        let events = store.recent_events(3);
        let up: u64 = count_up(&targets);
        assert(rows::status_views(targets@).len() == targets@.len());
        display::push_sample(&mut self.latency, stats::mean_of(&latencies_of(&targets)));
        let rx: Option<u64> = match bandwidth {
            Some(b) => Some((b.rx_bps as i128 - i64::MIN as i128) as u64),
            None => None,
        };
        display::push_sample(&mut self.bandwidth, rx);
        let changed = match route {
            Some(t) => display::route_changed(&mut self.route_hash, t.route_hash.as_str()),
            None => false,
        };
        let w = column_widths(cols);
        let mut out = draw_head(interval, up, targets.len() as u64);
        out.append(section_text(enabled, "status", draw_status(&targets, &gateway, w)).as_str());
        out.append(section_text(enabled, "reliability", draw_reliability(&hour, &day)).as_str());
        out.append(section_text(enabled, "qoe", draw_qoe(&qoe)).as_str());
        out.append(
            section_text(enabled, "sparkline", draw_sparklines(&self.latency, &self.bandwidth)).as_str(),
        );
        out.append(section_text(enabled, "wifi", draw_wifi(wifi)).as_str());
        out.append(section_text(enabled, "bandwidth", draw_bandwidth(bandwidth)).as_str());
        out.append(section_text(enabled, "security", draw_security(security)).as_str());
        out.append(section_text(enabled, "devices", draw_devices(&devices, w.ip)).as_str());
        out.append(section_text(enabled, "route", draw_route(route, changed)).as_str());
        out.append(section_text(enabled, "dns", draw_dns(&dns, w.resolver)).as_str());
        out.append(section_text(enabled, "events", draw_events(&events)).as_str());
        out
    }
}

/// The pause between two ticks: the interval, but at least half a second.
pub fn refresh_pause(interval: u64) -> (r: u64)
    ensures
        r == pause(interval),
{
    if interval < 500_000_000 {
        500_000_000
    } else {
        interval
    }
}

/// The line of the last hour tells the uptime, latency and loss of the hour, the line of
/// the last day those of the day and its disconnects.
pub proof fn law_reliability_tells_hour_and_day(h: Reliability, d: Reliability)
    ensures
        text::contains(
            reliability_section(h, d),
            "\n  last 1h : uptime "@
                + number::decimal_text(h.uptime_pct as nat, 1_000_000_000, 1) + "%  lat "@
                + display::measure(h.avg_latency_ms, 1, " ms"@) + "  loss "@
                + display::measure(h.avg_loss_pct, 1, "%"@),
        ),
        text::contains(
            reliability_section(h, d),
            "\n  last 24h: uptime "@
                + number::decimal_text(d.uptime_pct as nat, 1_000_000_000, 1) + "%  lat "@
                + display::measure(d.avg_latency_ms, 1, " ms"@) + "  loss "@
                + display::measure(d.avg_loss_pct, 1, "%"@) + "  disconnects "@
                + number::dec(d.disconnects as nat),
        ),
{
    let p = seq![
        "\n  last 1h : uptime "@,
        number::decimal_text(h.uptime_pct as nat, 1_000_000_000, 1),
        "%  lat "@,
        display::measure(h.avg_latency_ms, 1, " ms"@),
        "  loss "@,
        display::measure(h.avg_loss_pct, 1, "%"@),
        "\n  last 24h: uptime "@,
        number::decimal_text(d.uptime_pct as nat, 1_000_000_000, 1),
        "%  lat "@,
        display::measure(d.avg_latency_ms, 1, " ms"@),
        "  loss "@,
        display::measure(d.avg_loss_pct, 1, "%"@),
        "  disconnects "@,
        number::dec(d.disconnects as nat),
        "\n"@,
    ];
    text::lemma_together_last(p, 15);
    text::lemma_together_last(p, 14);
    text::lemma_together_last(p, 13);
    text::lemma_together_last(p, 12);
    text::lemma_together_last(p, 11);
    text::lemma_together_last(p, 10);
    text::lemma_together_last(p, 9);
    text::lemma_together_last(p, 8);
    text::lemma_together_last(p, 7);
    text::lemma_together_last(p, 6);
    text::lemma_together_last(p, 5);
    text::lemma_together_last(p, 4);
    text::lemma_together_last(p, 3);
    text::lemma_together_last(p, 2);
    assert(p.take(15) == p);
    assert(text::together(p.take(1)) == p[0]);
    assert(text::together(p) == reliability_section(h, d));
    let m0 = seq![p[0], p[1], p[2], p[3], p[4], p[5]];
    assert(p.subrange(0, 6) == m0);
    text::lemma_neighbours_are_found(p, 0, 6);
    text::lemma_together_last(m0, 6);
    text::lemma_together_last(m0, 5);
    text::lemma_together_last(m0, 4);
    text::lemma_together_last(m0, 3);
    text::lemma_together_last(m0, 2);
    assert(m0.take(6) == m0);
    assert(text::together(m0.take(1)) == p[0]);
    let m6 = seq![p[6], p[7], p[8], p[9], p[10], p[11], p[12], p[13]];
    assert(p.subrange(6, 14) == m6);
    text::lemma_neighbours_are_found(p, 6, 14);
    text::lemma_together_last(m6, 8);
    text::lemma_together_last(m6, 7);
    text::lemma_together_last(m6, 6);
    text::lemma_together_last(m6, 5);
    text::lemma_together_last(m6, 4);
    text::lemma_together_last(m6, 3);
    text::lemma_together_last(m6, 2);
    assert(m6.take(8) == m6);
    assert(text::together(m6.take(1)) == p[6]);
}

/// Each score stands behind the name of its use, as a whole number.
pub proof fn law_scores_stand_behind_their_use(q: QoeAverage)
    ensures
        text::contains(
            score_list(q),
            "gaming "@ + display::measure(q.gaming, 0, ""@),
        ),
        text::contains(
            score_list(q),
            " · voip "@ + display::measure(q.voip, 0, ""@),
        ),
        text::contains(
            score_list(q),
            " · video "@ + display::measure(q.video_call, 0, ""@),
        ),
        text::contains(
            score_list(q),
            " · streaming "@ + display::measure(q.streaming, 0, ""@),
        ),
        text::contains(
            score_list(q),
            " · web "@ + display::measure(q.web, 0, ""@),
        ),
{
    let p = seq![
        "gaming "@,
        display::measure(q.gaming, 0, ""@),
        " · voip "@,
        display::measure(q.voip, 0, ""@),
        " · video "@,
        display::measure(q.video_call, 0, ""@),
        " · streaming "@,
        display::measure(q.streaming, 0, ""@),
        " · web "@,
        display::measure(q.web, 0, ""@),
    ];
    text::lemma_together_last(p, 10);
    text::lemma_together_last(p, 9);
    text::lemma_together_last(p, 8);
    text::lemma_together_last(p, 7);
    text::lemma_together_last(p, 6);
    text::lemma_together_last(p, 5);
    text::lemma_together_last(p, 4);
    text::lemma_together_last(p, 3);
    text::lemma_together_last(p, 2);
    assert(p.take(10) == p);
    assert(text::together(p.take(1)) == p[0]);
    assert(text::together(p) == score_list(q));
    text::lemma_pair_is_found(p, 0);
    text::lemma_pair_is_found(p, 2);
    text::lemma_pair_is_found(p, 4);
    text::lemma_pair_is_found(p, 6);
    text::lemma_pair_is_found(p, 8);
}

/// The time and the loss of the gateway are told, with a dash for what is not known.
pub proof fn law_gateway_figures_are_told(g: GatewaySample)
    ensures
        text::contains(
            gateway_figures(g),
            display::reading_or(g.gateway_rtt_ms, 2, " ms"@, "—"@) + " · loss "@
                + display::reading_or(g.lan_loss_pct, 0, "%"@, "—"@),
        ),
{
    let p = seq![
        display::reading_or(g.gateway_rtt_ms, 2, " ms"@, "—"@),
        " · loss "@,
        display::reading_or(g.lan_loss_pct, 0, "%"@, "—"@),
    ];
    text::lemma_together_last(p, 3);
    text::lemma_together_last(p, 2);
    assert(p.take(3) == p);
    assert(text::together(p.take(1)) == p[0]);
    assert(text::together(p) == gateway_figures(g));
    let m0 = seq![p[0], p[1], p[2]];
    assert(p.subrange(0, 3) == m0);
    text::lemma_neighbours_are_found(p, 0, 3);
    text::lemma_together_last(m0, 3);
    text::lemma_together_last(m0, 2);
    assert(m0.take(3) == m0);
    assert(text::together(m0.take(1)) == p[0]);
}

/// What is received stands behind the arrow down and what is sent behind the arrow up, in
/// millions of bits per second.
pub proof fn law_rates_are_told_in_megabits(b: BandwidthNow)
    ensures
        text::contains(
            rates(b),
            "↓ "@ + display::signed_quotient(b.rx_bps as int, 1_000_000, 1) + " Mbps · ↑ "@
                + display::signed_quotient(b.tx_bps as int, 1_000_000, 1) + " Mbps"@,
        ),
{
    let p = seq![
        "↓ "@,
        display::signed_quotient(b.rx_bps as int, 1_000_000, 1),
        " Mbps · ↑ "@,
        display::signed_quotient(b.tx_bps as int, 1_000_000, 1),
        " Mbps"@,
    ];
    text::lemma_together_last(p, 5);
    text::lemma_together_last(p, 4);
    text::lemma_together_last(p, 3);
    text::lemma_together_last(p, 2);
    assert(p.take(5) == p);
    assert(text::together(p.take(1)) == p[0]);
    assert(text::together(p) == rates(b));
    let m0 = seq![p[0], p[1], p[2], p[3], p[4]];
    assert(p.subrange(0, 5) == m0);
    text::lemma_neighbours_are_found(p, 0, 5);
    text::lemma_together_last(m0, 5);
    text::lemma_together_last(m0, 4);
    text::lemma_together_last(m0, 3);
    text::lemma_together_last(m0, 2);
    assert(m0.take(5) == m0);
    assert(text::together(m0.take(1)) == p[0]);
}

/// Each part of the posture stands behind its name.
pub proof fn law_posture_is_told_by_name(s: SecuritySnapshot)
    ensures
        text::contains(
            security_section(Some(s)),
            "  security: vpn "@ + display::tri_text(s.vpn_detected),
        ),
        text::contains(
            security_section(Some(s)),
            " · firewall "@ + display::tri_text(s.firewall_active),
        ),
        text::contains(
            security_section(Some(s)),
            " · doh "@ + display::tri_text(s.doh_active),
        ),
        text::contains(
            security_section(Some(s)),
            " · dot "@ + display::tri_text(s.dot_active),
        ),
{
    let p = seq![
        "  security: vpn "@,
        display::tri_text(s.vpn_detected),
        " · firewall "@,
        display::tri_text(s.firewall_active),
        " · doh "@,
        display::tri_text(s.doh_active),
        " · dot "@,
        display::tri_text(s.dot_active),
        "\n"@,
    ];
    text::lemma_together_last(p, 9);
    text::lemma_together_last(p, 8);
    text::lemma_together_last(p, 7);
    text::lemma_together_last(p, 6);
    text::lemma_together_last(p, 5);
    text::lemma_together_last(p, 4);
    text::lemma_together_last(p, 3);
    text::lemma_together_last(p, 2);
    assert(p.take(9) == p);
    assert(text::together(p.take(1)) == p[0]);
    assert(text::together(p) == security_section(Some(s)));
    text::lemma_pair_is_found(p, 0);
    text::lemma_pair_is_found(p, 2);
    text::lemma_pair_is_found(p, 4);
    text::lemma_pair_is_found(p, 6);
}

/// The name, the level and the speed of the link are told.
pub proof fn law_link_is_told(w: WifiSample)
    ensures
        text::contains(
            wifi_section(Some(w)),
            "\n  wifi: "@ + display::or_text(text::opt_text(w.ssid), "?"@) + " · "@
                + dbm(w.rssi_dbm) + " · "@
                + display::reading_or(w.link_speed_mbps, 0, " Mbps"@, "—"@),
        ),
{
    let p = seq![
        "\n  wifi: "@,
        display::or_text(text::opt_text(w.ssid), "?"@),
        " · "@,
        dbm(w.rssi_dbm),
        " · "@,
        display::reading_or(w.link_speed_mbps, 0, " Mbps"@, "—"@),
        "\n"@,
    ];
    text::lemma_together_last(p, 7);
    text::lemma_together_last(p, 6);
    text::lemma_together_last(p, 5);
    text::lemma_together_last(p, 4);
    text::lemma_together_last(p, 3);
    text::lemma_together_last(p, 2);
    assert(p.take(7) == p);
    assert(text::together(p.take(1)) == p[0]);
    assert(text::together(p) == wifi_section(Some(w)));
    let m0 = seq![p[0], p[1], p[2], p[3], p[4], p[5]];
    assert(p.subrange(0, 6) == m0);
    text::lemma_neighbours_are_found(p, 0, 6);
    text::lemma_together_last(m0, 6);
    text::lemma_together_last(m0, 5);
    text::lemma_together_last(m0, 4);
    text::lemma_together_last(m0, 3);
    text::lemma_together_last(m0, 2);
    assert(m0.take(6) == m0);
    assert(text::together(m0.take(1)) == p[0]);
}

/// A resolver is told with the mean time, the lookups and the failures.
pub proof fn law_resolvers_are_told(s: rows::StatView, width: nat)
    ensures
        text::contains(
            resolver_row(s, width),
            number::dec(s.count as nat) + " lookups, "@,
        ),
        text::contains(
            resolver_row(s, width),
            number::dec(s.failures as nat) + " failures"@,
        ),
        text::contains(
            resolver_row(s, width),
            display::left(s.resolver, width) + " "@
                + display::right(display::measure(s.avg_ms, 1, "ms"@), 8) + "  "@
                + number::dec(s.count as nat),
        ),
{
    let p = seq![
        display::left(s.resolver, width),
        " "@,
        display::right(display::measure(s.avg_ms, 1, "ms"@), 8),
        "  "@,
        number::dec(s.count as nat),
        " lookups, "@,
        number::dec(s.failures as nat),
        " failures"@,
    ];
    text::lemma_together_last(p, 8);
    text::lemma_together_last(p, 7);
    text::lemma_together_last(p, 6);
    text::lemma_together_last(p, 5);
    text::lemma_together_last(p, 4);
    text::lemma_together_last(p, 3);
    text::lemma_together_last(p, 2);
    assert(p.take(8) == p);
    assert(text::together(p.take(1)) == p[0]);
    assert(text::together(p) == resolver_row(s, width));
    text::lemma_pair_is_found(p, 4);
    text::lemma_pair_is_found(p, 6);
    let m0 = seq![p[0], p[1], p[2], p[3], p[4]];
    assert(p.subrange(0, 5) == m0);
    text::lemma_neighbours_are_found(p, 0, 5);
    text::lemma_together_last(m0, 5);
    text::lemma_together_last(m0, 4);
    text::lemma_together_last(m0, 3);
    text::lemma_together_last(m0, 2);
    assert(m0.take(5) == m0);
    assert(text::together(m0.take(1)) == p[0]);
}

/// A device is told by its address and its name, or its hardware address where it has none.
pub proof fn law_devices_are_told(d: Device, width: nat)
    ensures
        text::contains(
            device_line(d, width),
            "    "@ + display::left(display::or_text(text::opt_text(d.ip), "?"@), width) + " "@
                + display::or_text(
                text::opt_text(d.hostname),
                display::or_text(text::opt_text(d.mac), ""@),
            ) + "\n"@,
        ),
{
    let p = seq![
        "    "@,
        display::left(display::or_text(text::opt_text(d.ip), "?"@), width),
        " "@,
        display::or_text(
                text::opt_text(d.hostname),
                display::or_text(text::opt_text(d.mac), ""@),
            ),
        "\n"@,
    ];
    text::lemma_together_last(p, 5);
    text::lemma_together_last(p, 4);
    text::lemma_together_last(p, 3);
    text::lemma_together_last(p, 2);
    assert(p.take(5) == p);
    assert(text::together(p.take(1)) == p[0]);
    assert(text::together(p) == device_line(d, width));
    let m0 = seq![p[0], p[1], p[2], p[3], p[4]];
    assert(p.subrange(0, 5) == m0);
    text::lemma_neighbours_are_found(p, 0, 5);
    text::lemma_together_last(m0, 5);
    text::lemma_together_last(m0, 4);
    text::lemma_together_last(m0, 3);
    text::lemma_together_last(m0, 2);
    assert(m0.take(5) == m0);
    assert(text::together(m0.take(1)) == p[0]);
}

/// A target is told by its label, its host and its state.
pub proof fn law_targets_are_told(s: rows::StatusView, w: Widths)
    ensures
        text::contains(
            target_line(s, w),
            "    "@ + display::left(s.label, w.label as nat) + " "@
                + display::left(s.host, w.host as nat) + " "@ + state_text(s) + "\n"@,
        ),
{
    let p = seq![
        "    "@,
        display::left(s.label, w.label as nat),
        " "@,
        display::left(s.host, w.host as nat),
        " "@,
        state_text(s),
        "\n"@,
    ];
    text::lemma_together_last(p, 7);
    text::lemma_together_last(p, 6);
    text::lemma_together_last(p, 5);
    text::lemma_together_last(p, 4);
    text::lemma_together_last(p, 3);
    text::lemma_together_last(p, 2);
    assert(p.take(7) == p);
    assert(text::together(p.take(1)) == p[0]);
    assert(text::together(p) == target_line(s, w));
    let m0 = seq![p[0], p[1], p[2], p[3], p[4], p[5], p[6]];
    assert(p.subrange(0, 7) == m0);
    text::lemma_neighbours_are_found(p, 0, 7);
    text::lemma_together_last(m0, 7);
    text::lemma_together_last(m0, 6);
    text::lemma_together_last(m0, 5);
    text::lemma_together_last(m0, 4);
    text::lemma_together_last(m0, 3);
    text::lemma_together_last(m0, 2);
    assert(m0.take(7) == m0);
    assert(text::together(m0.take(1)) == p[0]);
}

/// A target counts as up if its last sample says so.
pub proof fn law_targets_that_are_up_count(
    a: Seq<rows::StatusView>,
    b: Seq<rows::StatusView>,
    row: rows::StatusView,
)
    ensures
        up_targets(a + b) == up_targets(a) + up_targets(b),
        up_targets(seq![row]) == (if row.up == Some(true) {
            1nat
        } else {
            0nat
        }),
        up_targets(Seq::<rows::StatusView>::empty()) == 0,
    decreases b.len(),
{
    reveal_with_fuel(up_targets, 2);
    assert(seq![row].drop_last() == Seq::<rows::StatusView>::empty());
    if b.len() == 0 {
        assert(a + b == a);
    } else {
        law_targets_that_are_up_count(a, b.drop_last(), row);
        assert((a + b).drop_last() == a + b.drop_last());
        assert(up_targets(a + b) == up_targets(a) + up_targets(b));
    }
}

/// Of the targets the known latencies are taken, in their order.
pub proof fn law_known_latencies_are_taken(
    a: Seq<rows::StatusView>,
    b: Seq<rows::StatusView>,
    row: rows::StatusView,
)
    ensures
        latencies(a + b) == latencies(a) + latencies(b),
        latencies(seq![row]) == (match row.rtt_avg {
            Some(x) => seq![x],
            None => Seq::empty(),
        }),
        latencies(Seq::<rows::StatusView>::empty()) == Seq::<u64>::empty(),
    decreases b.len(),
{
    reveal_with_fuel(latencies, 2);
    assert(seq![row].drop_last() == Seq::<rows::StatusView>::empty());
    if b.len() == 0 {
        assert(a + b == a);
    } else {
        law_known_latencies_are_taken(a, b.drop_last(), row);
        assert((a + b).drop_last() == a + b.drop_last());
        assert(latencies(a + b) == latencies(a) + latencies(b));
    }
}

/// A device is listed if it is active. Devices stay in their order.
pub proof fn law_active_devices_are_listed(a: Seq<Device>, b: Seq<Device>, row: Device)
    ensures
        active_devices(a + b) == active_devices(a) + active_devices(b),
        active_devices(seq![row]) == (if row.is_active {
            seq![row]
        } else {
            Seq::empty()
        }),
        active_devices(Seq::<Device>::empty()) == Seq::<Device>::empty(),
    decreases b.len(),
{
    reveal_with_fuel(active_devices, 2);
    assert(seq![row].drop_last() == Seq::<Device>::empty());
    if b.len() == 0 {
        assert(a + b == a);
    } else {
        law_active_devices_are_listed(a, b.drop_last(), row);
        assert((a + b).drop_last() == a + b.drop_last());
        assert(active_devices(a + b) == active_devices(a) + active_devices(b));
    }
}

/// A name is unknown unless it is blank or that of a section. It is told without the
/// blanks around it.
pub proof fn law_names_that_are_no_section_are_unknown(
    a: Seq<Seq<char>>,
    b: Seq<Seq<char>>,
    part: Seq<char>,
)
    ensures
        unknown_names(a + b) == unknown_names(a) + unknown_names(b),
        unknown_names(seq![part]) == ({
            let t = text::trim(part);
            if t.len() == 0 || t == "status"@ || t == "reliability"@ || t == "qoe"@
                || t == "sparkline"@ || t == "wifi"@ || t == "bandwidth"@ || t == "security"@
                || t == "devices"@ || t == "route"@ || t == "dns"@ || t == "events"@ {
                Seq::empty()
            } else {
                seq![t]
            }
        }),
        unknown_names(Seq::<Seq<char>>::empty()) == Seq::<Seq<char>>::empty(),
    decreases b.len(),
{
    reveal_with_fuel(unknown_names, 2);
    lemma_section_keys(text::trim(part));
    assert(seq![part].drop_last() == Seq::<Seq<char>>::empty());
    if b.len() == 0 {
        assert(a + b == a);
    } else {
        law_names_that_are_no_section_are_unknown(a, b.drop_last(), part);
        assert((a + b).drop_last() == a + b.drop_last());
        assert(unknown_names(a + b) == unknown_names(a) + unknown_names(b));
    }
}

/// The sections by name.
proof fn lemma_section_keys(key: Seq<char>)
    ensures
        section_keys().contains(key) <==> key == "status"@ || key == "reliability"@
            || key == "qoe"@ || key == "sparkline"@ || key == "wifi"@ || key == "bandwidth"@
            || key == "security"@ || key == "devices"@ || key == "route"@ || key == "dns"@
            || key == "events"@,
{
    let s = section_keys();
    assert(s[0] == "status"@);
    assert(s[1] == "reliability"@);
    assert(s[2] == "qoe"@);
    assert(s[3] == "sparkline"@);
    assert(s[4] == "wifi"@);
    assert(s[5] == "bandwidth"@);
    assert(s[6] == "security"@);
    assert(s[7] == "devices"@);
    assert(s[8] == "route"@);
    assert(s[9] == "dns"@);
    assert(s[10] == "events"@);
}

/// Each target has a line, in their order.
pub proof fn law_each_target_has_a_line(
    a: Seq<rows::StatusView>,
    b: Seq<rows::StatusView>,
    row: rows::StatusView,
    w: Widths,
)
    ensures
        target_lines(a + b, w) == target_lines(a, w) + target_lines(b, w),
        target_lines(seq![row], w) == target_line(row, w),
        target_lines(Seq::empty(), w) == Seq::<char>::empty(),
    decreases b.len(),
{
    reveal_with_fuel(target_lines, 2);
    assert(seq![row].drop_last() == Seq::<rows::StatusView>::empty());
    assert(target_lines(seq![row], w) == target_line(row, w));
    if b.len() == 0 {
        assert(a + b == a);
        assert(target_lines(a, w) + Seq::<char>::empty() == target_lines(a, w));
    } else {
        law_each_target_has_a_line(a, b.drop_last(), row, w);
        assert((a + b).drop_last() == a + b.drop_last());
        assert((a + b).last() == b.last());
        assert(target_lines(a + b, w) == target_lines(a, w) + target_lines(b, w));
    }
}

/// Each device has a line, in their order.
pub proof fn law_each_device_has_a_line(a: Seq<Device>, b: Seq<Device>, row: Device, width: nat)
    ensures
        device_lines(a + b, width) == device_lines(a, width) + device_lines(b, width),
        device_lines(seq![row], width) == device_line(row, width),
        device_lines(Seq::empty(), width) == Seq::<char>::empty(),
    decreases b.len(),
{
    reveal_with_fuel(device_lines, 2);
    assert(seq![row].drop_last() == Seq::<Device>::empty());
    assert(device_lines(seq![row], width) == device_line(row, width));
    if b.len() == 0 {
        assert(a + b == a);
        assert(device_lines(a, width) + Seq::<char>::empty() == device_lines(a, width));
    } else {
        law_each_device_has_a_line(a, b.drop_last(), row, width);
        assert((a + b).drop_last() == a + b.drop_last());
        assert((a + b).last() == b.last());
        assert(device_lines(a + b, width) == device_lines(a, width) + device_lines(b, width));
    }
}

/// Each resolver has a line, in their order.
pub proof fn law_each_resolver_has_a_line(
    a: Seq<rows::StatView>,
    b: Seq<rows::StatView>,
    row: rows::StatView,
    width: nat,
)
    ensures
        dns_lines(a + b, width) == dns_lines(a, width) + dns_lines(b, width),
        dns_lines(seq![row], width) == "  dns: "@ + resolver_row(row, width) + "\n"@,
        dns_lines(Seq::empty(), width) == Seq::<char>::empty(),
    decreases b.len(),
{
    reveal_with_fuel(dns_lines, 2);
    assert(seq![row].drop_last() == Seq::<rows::StatView>::empty());
    assert(dns_lines(seq![row], width) == "  dns: "@ + resolver_row(row, width) + "\n"@);
    if b.len() == 0 {
        assert(a + b == a);
        assert(dns_lines(a, width) + Seq::<char>::empty() == dns_lines(a, width));
    } else {
        law_each_resolver_has_a_line(a, b.drop_last(), row, width);
        assert((a + b).drop_last() == a + b.drop_last());
        assert((a + b).last() == b.last());
        assert(dns_lines(a + b, width) == dns_lines(a, width) + dns_lines(b, width));
    }
}

/// Each event has a line with its time, kind and severity, in their order.
pub proof fn law_each_event_has_a_line(a: Seq<Event>, b: Seq<Event>, row: Event, indent: Seq<char>)
    ensures
        event_rows(a + b, indent) == event_rows(a, indent) + event_rows(b, indent),
        event_rows(seq![row], indent) == indent + (display::stamp(row.ts as int) + "  "@
            + display::left(row.kind@, 12) + " "@
            + row.severity@) + "\n"@,
        event_rows(Seq::empty(), indent) == Seq::<char>::empty(),
    decreases b.len(),
{
    reveal_with_fuel(event_rows, 2);
    assert(seq![row].drop_last() == Seq::<Event>::empty());
    assert(event_rows(seq![row], indent) == indent + (display::stamp(row.ts as int) + "  "@
        + display::left(row.kind@, 12) + " "@
            + row.severity@) + "\n"@);
    if b.len() == 0 {
        assert(a + b == a);
        assert(event_rows(a, indent) + Seq::<char>::empty() == event_rows(a, indent));
    } else {
        law_each_event_has_a_line(a, b.drop_last(), row, indent);
        assert((a + b).drop_last() == a + b.drop_last());
        assert((a + b).last() == b.last());
        assert(event_rows(a + b, indent) == event_rows(a, indent) + event_rows(b, indent));
    }
}

/// A key is named by a list if one of its parts is the key, blanks aside.
pub proof fn law_lists_name_their_parts(part: Seq<char>, rest: Seq<char>, key: Seq<char>)
    requires
        !part.contains(','),
    ensures
        names(part + seq![','] + rest, key) <==> text::trim(part) == key || names(rest, key),
        names(part, key) <==> text::trim(part) == key,
{
    let list = part + seq![','] + rest;
    text::law_texts_are_split_at_every_separator(part, ',', rest);
    let (s, t) = (text::split(list, ','), text::split(rest, ','));
    assert(s[0] == part);
    assert forall|i: int| 0 <= i < t.len() implies #[trigger] t[i] == s[i + 1] by {}
    if names(list, key) {
        let i = choose|i: int| 0 <= i < s.len() && text::trim(#[trigger] s[i]) == key;
        if i > 0 {
            assert(t[i - 1] == s[i]);
        }
    }
    if names(rest, key) {
        let i = choose|i: int| 0 <= i < t.len() && text::trim(#[trigger] t[i]) == key;
        assert(s[i + 1] == t[i]);
    }
    let o = text::split(part, ',');
    assert(o[0] == part);
}

/// Only the named sections are shown, or all but the hidden ones. To name them takes
/// precedence over hiding.
pub proof fn law_sections_are_chosen(hidden: Seq<char>, only: Seq<char>, key: Seq<char>)
    ensures
        shown(Some(hidden), Some(only), key) <==> names(only, key),
        shown(None, Some(only), key) <==> names(only, key),
        shown(Some(hidden), None, key) <==> !names(hidden, key),
        shown(None, None, key),
{
}

/// A column takes its share of a terminal of 60 to 200 columns, rounded down, and at least
/// its floor.
pub proof fn law_columns_take_their_share(cols: nat)
    requires
        60 <= cols <= 200,
    ensures
        ({
            let w = widths(cols);
            &&& w.label >= 14 && w.host >= 24 && w.ip >= 16 && w.resolver >= 12
            &&& w.label > 14 ==> 100 * w.label <= 18 * cols < 100 * (w.label + 1)
            &&& w.host > 24 ==> 100 * w.host <= 30 * cols < 100 * (w.host + 1)
            &&& w.ip > 16 ==> 100 * w.ip <= 20 * cols < 100 * (w.ip + 1)
            &&& w.resolver > 12 ==> 100 * w.resolver <= 15 * cols < 100 * (w.resolver + 1)
            &&& w.label == 14 ==> 18 * cols < 15 * 100
            &&& w.host == 24 ==> 30 * cols < 25 * 100
            &&& w.ip == 16 ==> 20 * cols < 17 * 100
            &&& w.resolver == 12 ==> 15 * cols < 13 * 100
        }),
        widths(200) == (Widths { label: 36, host: 60, ip: 40, resolver: 30 }),
{
}

/// A target that is up is told by its latency, one that is down as such, and one without a
/// sample by a dash.
pub proof fn law_states_are_told(s: rows::StatusView)
    ensures
        s.up is None ==> state_text(s) == "—"@,
        s.up == Some(false) ==> state_text(s) == "down"@,
        s.up == Some(true) && s.rtt_avg is Some ==> state_text(s) == number::decimal_text(
            s.rtt_avg->0 as nat,
            1_000_000_000,
            1,
        ) + " ms"@,
        s.up == Some(true) && s.rtt_avg is None ==> state_text(s) == number::decimal_text(
            0,
            1_000_000_000,
            1,
        ) + " ms"@,
{
}

/// The gateway is told by the newest of its rows; rows of other interfaces do not matter.
pub proof fn law_gateway_is_the_newest_row(v: Seq<rows::InterfaceSample>)
    ensures
        match newest_gateway(v) {
            Some(g) => exists|i: int|
                {
                    &&& 0 <= i < v.len()
                    &&& (#[trigger] v[i]).iface@ == "gateway"@
                    &&& g.ts == v[i].ts
                    &&& g.gateway_rtt_ms == v[i].gateway_rtt_ms
                    &&& g.lan_loss_pct == v[i].lan_loss_pct
                    &&& forall|k: int|
                        0 <= k < v.len() && (#[trigger] v[k]).iface@ == "gateway"@ ==> v[k].ts
                            <= v[i].ts
                },
            None => forall|k: int| 0 <= k < v.len() ==> (#[trigger] v[k]).iface@ != "gateway"@,
        },
{
    let keep = tables::gateway_rows(v);
    let times = rows::stamps(v);
    order::law_newest_kept(times, keep);
    assert forall|k: int| 0 <= k < v.len() implies keep[k] == ((#[trigger] v[k]).iface@
        == "gateway"@) && times[k] == v[k].ts by {}
    match order::newest_kept(times, keep) {
        Some(i) => {
            assert(v[i].iface@ == "gateway"@);
        },
        None => {},
    }
}

/// The targets are told and the gateway behind them. Only where there is neither, that is
/// told.
pub proof fn law_status_tells_targets_and_gateway(
    v: Seq<rows::StatusView>,
    g: GatewaySample,
    w: Widths,
)
    ensures
        v.len() > 0 ==> status_section(v, None, w) == target_lines(v, w),
        v.len() == 0 ==> status_section(v, None, w) == "  status: no targets yet\n"@,
        target_lines(v, w).is_prefix_of(status_section(v, Some(g), w)),
        text::contains(status_section(v, Some(g), w), "  gateway: "@ + gateway_figures(g)),
{
    let p = seq![target_lines(v, w), "  gateway: "@, gateway_figures(g), "\n"@];
    text::lemma_together_last(p, 4);
    text::lemma_together_last(p, 3);
    text::lemma_together_last(p, 2);
    assert(p.take(4) == p);
    assert(text::together(p.take(1)) == p[0]);
    text::lemma_pair_is_found(p, 1);
    let t = status_section(v, Some(g), w);
    assert(t.subrange(0, target_lines(v, w).len() as int) == target_lines(v, w));
}

/// The first eight devices are told, and how many more there are.
pub proof fn law_eight_devices_are_told(first: Seq<Device>, more: Seq<Device>, width: nat)
    requires
        first.len() == 8 || more.len() == 0,
        first.len() <= 8,
    ensures
        ({
            let head = "  devices: "@ + number::dec(first.len() + more.len()) + " online\n"@;
            devices_section(first + more, width) == head + device_lines(first, width)
                + (if more.len()
                > 0 {
                "    +"@ + number::dec(more.len()) + " more\n"@
            } else {
                Seq::empty()
            })
        }),
{
    let head = "  devices: "@ + number::dec(first.len() + more.len()) + " online\n"@;
    let all = first + more;
    if more.len() > 0 {
        assert(all.take(8) == first);
        let n = number::dec(more.len());
        assert(devices_section(all, width) == head + device_lines(first, width) + "    +"@ + n
            + " more\n"@);
        assert(head + device_lines(first, width) + "    +"@ + n + " more\n"@ == head + device_lines(
            first,
            width,
        ) + ("    +"@ + n + " more\n"@));
    } else {
        assert(all == first);
        assert(head + device_lines(first, width) + Seq::<char>::empty() == head + device_lines(
            first,
            width,
        ));
    }
}

/// A changed route is told as such, and the time of the last hop where it is known.
pub proof fn law_route_tells_hops_and_change(t: TracerouteView)
    ensures
        route_section(None, true) == "  route: no traceroute yet\n"@,
        route_section(None, false) == "  route: no traceroute yet\n"@,
        ({
            let told = "  route: "@ + number::dec_int(t.hop_count as int) + " hops to "@ + t.target@
                + last_hop(t);
            &&& route_section(Some(t), true) == told + " · route changed\n"@
            &&& route_section(Some(t), false) == told + "\n"@
        }),
        t.hops@.len() == 0 || t.hops@.last().rtt_ms is None ==> last_hop(t) == ""@,
        t.hops@.len() > 0 && t.hops@.last().rtt_ms is Some ==> last_hop(t) == " · last hop "@
            + display::signed(t.hops@.last().rtt_ms->0.billionths as int, 1_000_000_000, 1) + "ms"@,
{
}

/// Where nothing is known yet, a section says so.
pub proof fn law_empty_sections_say_so(x: i64, width: nat)
    ensures
        qoe_section(None) == "  QoE(30m): no samples yet\n"@,
        wifi_section(None) == "\n  wifi: not connected to Wi-Fi\n"@,
        bandwidth_section(None) == "  bandwidth: no samples yet\n"@,
        security_section(None) == "  security: no snapshot yet\n"@,
        dns_section(Seq::empty(), width) == "  dns: no samples yet\n"@,
        events_section(Seq::empty()) == "\n  recent events:\n"@ + "    none yet\n"@,
        dbm(None) == "—"@,
        dbm(Some(x)) == number::dec_int(x as int) + " dBm"@,
{
}

/// The header says online while a target is up, with how many are.
pub proof fn law_header_tells_the_targets(interval: nat, up: nat, total: nat)
    ensures
        up > 0 ==> text::contains(frame_head(interval, up, total), "● ONLINE "@),
        up == 0 ==> text::contains(frame_head(interval, up, total), "○ OFFLINE"@),
        text::contains(
            frame_head(interval, up, total),
            number::dec(up) + "/"@ + number::dec(total) + " targets up\n"@,
        ),
{
    let p = seq![
        "\x1b[2J\x1b[HTracium — live · refresh "@,
        number::decimal_text(interval, 1_000_000_000, 0),
        "s · Ctrl-C to quit\n\n  "@,
        if up > 0 {
            "● ONLINE "@
        } else {
            "○ OFFLINE"@
        },
        "   "@,
        number::dec(up),
        "/"@,
        number::dec(total),
        " targets up\n"@,
    ];
    text::lemma_together_last(p, 9);
    text::lemma_together_last(p, 8);
    text::lemma_together_last(p, 7);
    text::lemma_together_last(p, 6);
    text::lemma_together_last(p, 5);
    text::lemma_together_last(p, 4);
    text::lemma_together_last(p, 3);
    text::lemma_together_last(p, 2);
    assert(p.take(9) == p);
    assert(text::together(p.take(1)) == p[0]);
    assert(text::together(p) == frame_head(interval, up, total));
    text::lemma_neighbours_are_found(p, 3, 4);
    assert(p.subrange(3, 4) == seq![p[3]]);
    assert(text::together(seq![p[3]]) == p[3]);
    let m = seq![p[5], p[6], p[7], p[8]];
    assert(p.subrange(5, 9) == m);
    text::lemma_neighbours_are_found(p, 5, 9);
    text::lemma_together_last(m, 4);
    text::lemma_together_last(m, 3);
    text::lemma_together_last(m, 2);
    assert(m.take(4) == m);
    assert(text::together(m.take(1)) == m[0]);
}

/// A route that was seen does not differ when it is seen again, and another one does. Where
/// there is no trace, the last route stays.
pub proof fn law_routes_differ_once(
    seen: Option<Seq<char>>,
    t: TracerouteView,
    next: TracerouteView,
)
    ensures
        !route_differs(None, Some(t)),
        !route_differs(seen, None),
        seen_route(seen, None) == seen,
        seen_route(seen, Some(t)) == Some(t.route_hash@),
        route_differs(seen_route(seen, Some(t)), Some(next)) <==> t.route_hash@ != next.route_hash@,
{
}

/// Rates keep their order in the history, and the least of them is zero.
pub proof fn law_rates_keep_their_order(a: BandwidthNow, b: BandwidthNow)
    ensures
        rate_reading(None) is None,
        rate_reading(Some(a)) is Some,
        rate_reading(Some(a))->0 - rate_reading(Some(b))->0 == a.rx_bps - b.rx_bps,
{
}

/// The pause between two ticks: the interval, but at least half a second.
pub open spec fn pause(interval: u64) -> u64 {
    if interval < 500_000_000 {
        500_000_000
    } else {
        interval
    }
}

/// No pause is shorter than half a second, and a longer interval is kept.
pub proof fn law_pauses_last_half_a_second(interval: u64)
    ensures
        2 * pause(interval) >= 1_000_000_000,
        2 * interval >= 1_000_000_000 ==> pause(interval) == interval,
        2 * interval <= 1_000_000_000 ==> 2 * pause(interval) == 1_000_000_000,
{
}

/// A frame shows its head and the sections that are enabled, each made from its own tables:
/// reliability over the last hour and the last day, scores over the last half hour and
/// resolvers over the last hour, and of the events the three newest.
#[verifier::rlimit(40)]
pub proof fn law_frames_show_the_enabled_sections(
    s: Store,
    now: i64,
    enabled: Seq<Seq<char>>,
    key: Seq<char>,
    interval: nat,
    cols: nat,
    lat: Seq<Option<u64>>,
    bw: Seq<Option<u64>>,
    changed: bool,
)
    requires
        now >= i64::MIN + 86_400_000,
        enabled == seq![key],
    ensures
        ({
            let targets = summary::statuses(s.targets@, s.connectivity@);
            let head = frame_head(interval, up_targets(targets), targets.len());
            let f = frame(s, now, enabled, interval, cols, lat, bw, changed);
            &&& key == "status"@ ==> f == head + status_section(
                summary::statuses(s.targets@, s.connectivity@),
                newest_gateway(s.interfaces@),
                widths(cols),
            )
            &&& key == "reliability"@ ==> f == head + reliability_section(
                summary::reliability(s.connectivity@, s.outages@, (now - 60 * 60 * 1000) as i64),
                summary::reliability(
                    s.connectivity@,
                    s.outages@,
                    (now - 24 * 60 * 60 * 1000) as i64,
                ),
            )
            &&& key == "qoe"@ ==> f == head
                + qoe_section(summary::qoe_mean(s.qoe@, (now - 30 * 60 * 1000) as i64))
            &&& key == "sparkline"@ ==> f == head + sparkline_section(lat, bw)
            &&& key == "wifi"@ ==> f == head + wifi_section(tables::newest_in(s.wifi@))
            &&& key == "bandwidth"@ ==> f == head
                + bandwidth_section(tables::newest_in(s.bandwidth@))
            &&& key == "security"@ ==> f == head + security_section(
                tables::newest_where(s.security@, crate::records::with_posture(s.security@)),
            )
            &&& key == "devices"@ ==> f == head + devices_section(
                active_devices(tables::newest_list(s.devices@, order::NO_LIMIT)),
                widths(cols).ip as nat,
            )
            &&& key == "route"@ ==> f == head
                + route_section(tables::newest_in(s.traceroutes@), changed)
            &&& key == "dns"@ ==> f == head + dns_section(
                summary::comparison(s.dns@, (now - 60 * 60 * 1000) as i64),
                widths(cols).resolver as nat,
            )
            &&& key == "events"@ ==> f == head + events_section(tables::newest_list(s.events@, 3))
        }),
        frame(s, now, Seq::empty(), interval, cols, lat, bw, changed) == frame_head(
            interval,
            up_targets(summary::statuses(s.targets@, s.connectivity@)),
            summary::statuses(s.targets@, s.connectivity@).len(),
        ),
{
    lemma_keys_differ();
    reveal_strlit("");
    let targets = summary::statuses(s.targets@, s.connectivity@);
    let head = frame_head(interval, up_targets(targets), targets.len());
    assert forall|k: Seq<char>| #[trigger] enabled.contains(k) implies k == key by {}
    assert(enabled[0] == key);
    assert(enabled.contains(key));
    assert(""@ == Seq::<char>::empty());
    assert forall|x: Seq<char>| #[trigger] (x + ""@) == x by {}
}

/// No two sections have the same key.
proof fn lemma_keys_differ()
    ensures
        "status"@ != "reliability"@,
        "status"@ != "qoe"@,
        "status"@ != "sparkline"@,
        "status"@ != "wifi"@,
        "status"@ != "bandwidth"@,
        "status"@ != "security"@,
        "status"@ != "devices"@,
        "status"@ != "route"@,
        "status"@ != "dns"@,
        "status"@ != "events"@,
        "reliability"@ != "qoe"@,
        "reliability"@ != "sparkline"@,
        "reliability"@ != "wifi"@,
        "reliability"@ != "bandwidth"@,
        "reliability"@ != "security"@,
        "reliability"@ != "devices"@,
        "reliability"@ != "route"@,
        "reliability"@ != "dns"@,
        "reliability"@ != "events"@,
        "qoe"@ != "sparkline"@,
        "qoe"@ != "wifi"@,
        "qoe"@ != "bandwidth"@,
        "qoe"@ != "security"@,
        "qoe"@ != "devices"@,
        "qoe"@ != "route"@,
        "qoe"@ != "dns"@,
        "qoe"@ != "events"@,
        "sparkline"@ != "wifi"@,
        "sparkline"@ != "bandwidth"@,
        "sparkline"@ != "security"@,
        "sparkline"@ != "devices"@,
        "sparkline"@ != "route"@,
        "sparkline"@ != "dns"@,
        "sparkline"@ != "events"@,
        "wifi"@ != "bandwidth"@,
        "wifi"@ != "security"@,
        "wifi"@ != "devices"@,
        "wifi"@ != "route"@,
        "wifi"@ != "dns"@,
        "wifi"@ != "events"@,
        "bandwidth"@ != "security"@,
        "bandwidth"@ != "devices"@,
        "bandwidth"@ != "route"@,
        "bandwidth"@ != "dns"@,
        "bandwidth"@ != "events"@,
        "security"@ != "devices"@,
        "security"@ != "route"@,
        "security"@ != "dns"@,
        "security"@ != "events"@,
        "devices"@ != "route"@,
        "devices"@ != "dns"@,
        "devices"@ != "events"@,
        "route"@ != "dns"@,
        "route"@ != "events"@,
        "dns"@ != "events"@,
{
    reveal_strlit("status");
    reveal_strlit("reliability");
    reveal_strlit("qoe");
    reveal_strlit("sparkline");
    reveal_strlit("wifi");
    reveal_strlit("bandwidth");
    reveal_strlit("security");
    reveal_strlit("devices");
    reveal_strlit("route");
    reveal_strlit("dns");
    reveal_strlit("events");
    assert("status"@[0] == 's' && "events"@[0] == 'e');
    assert("qoe"@[0] == 'q' && "dns"@[0] == 'd');
    assert("sparkline"@[0] == 's' && "bandwidth"@[0] == 'b');
    assert("status"@.len() == 6 && "reliability"@.len() == 11 && "qoe"@.len() == 3
        && "sparkline"@.len() == 9 && "wifi"@.len() == 4 && "bandwidth"@.len() == 9
        && "security"@.len() == 8 && "devices"@.len() == 7 && "route"@.len() == 5
        && "dns"@.len() == 3 && "events"@.len() == 6);
}

/// The banner tells the version, the database and the interval.
pub proof fn law_banner_tells_the_settings(
    version: Seq<char>,
    db: Seq<char>,
    interval: nat,
    enabled: Seq<Seq<char>>,
)
    ensures
        text::contains(
            banner_text(version, db, interval, enabled),
            "\n  traciumd "@ + version,
        ),
        text::contains(
            banner_text(version, db, interval, enabled),
            " — live watch\n  db:       "@ + db,
        ),
        text::contains(
            banner_text(version, db, interval, enabled),
            "\n  refresh:  "@ + number::decimal_text(interval, 1_000_000_000, 1),
        ),
        text::contains(
            banner_text(version, db, interval, enabled),
            "s\n  sections: "@ + joined(keys_by_name().filter(|k: Seq<char>| enabled.contains(k))),
        ),
{
    let p = seq![
        title(),
        "\n  traciumd "@,
        version,
        " — live watch\n  db:       "@,
        db,
        "\n  refresh:  "@,
        number::decimal_text(interval, 1_000_000_000, 1),
        "s\n  sections: "@,
        joined(keys_by_name().filter(|k: Seq<char>| enabled.contains(k))),
        "\n\n"@,
    ];
    text::lemma_together_last(p, 10);
    text::lemma_together_last(p, 9);
    text::lemma_together_last(p, 8);
    text::lemma_together_last(p, 7);
    text::lemma_together_last(p, 6);
    text::lemma_together_last(p, 5);
    text::lemma_together_last(p, 4);
    text::lemma_together_last(p, 3);
    text::lemma_together_last(p, 2);
    assert(p.take(10) == p);
    assert(text::together(p.take(1)) == p[0]);
    assert(text::together(p) == banner_text(version, db, interval, enabled));
    text::lemma_pair_is_found(p, 1);
    text::lemma_pair_is_found(p, 3);
    text::lemma_pair_is_found(p, 5);
    text::lemma_pair_is_found(p, 7);
}

/// Names are listed with a comma between each two.
pub proof fn law_names_join_with_a_comma(a: Seq<Seq<char>>, b: Seq<Seq<char>>, name: Seq<char>)
    ensures
        a.len() > 0 && b.len() > 0 ==> joined(a + b) == joined(a) + ", "@ + joined(b),
        joined(seq![name]) == name,
        joined(Seq::empty()) == Seq::<char>::empty(),
    decreases b.len(),
{
    if a.len() > 0 && b.len() > 0 {
        assert((a + b).drop_last() == a + b.drop_last());
        if b.len() > 1 {
            law_names_join_with_a_comma(a, b.drop_last(), name);
            assert(joined(a + b) == joined(a) + ", "@ + joined(b));
        } else {
            assert(a + b.drop_last() == a);
        }
    }
}

} // verus!
