//! The printed report: one page of lines, each with its place.

use vstd::prelude::*;

use crate::display;
use crate::number;
use crate::report;
use crate::rows;
use crate::rows::{DnsResolverStat, Outage, QoeAverage, Reliability};
use crate::store::Store;
use crate::summary;
use crate::tables;
use crate::text;
use crate::watch;

verus! {

/// A line of the page. Lengths are in millimetres: `indent` from the left
/// margin, `y` from the bottom edge.
#[derive(Clone, Debug, PartialEq, Eq)]
pub struct Line {
    pub text: String,
    pub size: u64,
    pub bold: bool,
    pub indent: u64,
    pub y: i128,
}

/// A line as plain values.
#[verifier::ext_equal]
pub struct LineView {
    pub text: Seq<char>,
    pub size: u64,
    pub bold: bool,
    pub indent: u64,
    pub y: i128,
}

impl View for Line {
    type V = LineView;

    open spec fn view(&self) -> LineView {
        LineView {
            text: self.text@,
            size: self.size,
            bold: self.bold,
            indent: self.indent,
            y: self.y,
        }
    }
}

pub open spec fn line_views(v: Seq<Line>) -> Seq<LineView> {
    v.map_values(|l: Line| l@)
}

/// A line to place, and the distance to the next one.
pub struct Item {
    pub text: Seq<char>,
    pub size: u64,
    pub bold: bool,
    pub indent: u64,
    pub gap: u64,
}

pub open spec fn heading(text: Seq<char>) -> Item {
    Item { text, size: 14, bold: true, indent: 0, gap: 7 }
}

pub open spec fn entry(text: Seq<char>, size: u64, gap: u64) -> Item {
    Item { text, size, bold: false, indent: 4, gap }
}

/// Where the line behind the given ones goes: the first at 280 mm, each further
/// one below by the gap of the one before.
pub open spec fn next_y(items: Seq<Item>) -> int
    decreases items.len(),
{
    if items.len() == 0 {
        280
    } else {
        next_y(items.drop_last()) - items.last().gap
    }
}

pub open spec fn place(item: Item, y: int) -> LineView {
    LineView {
        text: item.text,
        size: item.size,
        bold: item.bold,
        indent: item.indent,
        y: y as i128,
    }
}

pub open spec fn placed(items: Seq<Item>) -> Seq<LineView>
    decreases items.len(),
{
    if items.len() == 0 {
        Seq::empty()
    } else {
        placed(items.drop_last()).push(place(items.last(), next_y(items.drop_last())))
    }
}

/// The lines lie one below the other: a gap between two neighbours is the gap
/// that the upper one asks for.
pub proof fn law_lines_keep_their_gaps(items: Seq<Item>, i: int)
    requires
        0 <= i < items.len() - 1,
        forall|k: int| 0 <= k < items.len() ==> (#[trigger] items[k]).gap <= 1000,
        items.len() <= u64::MAX,
    ensures
        placed(items).len() == items.len(),
        placed(items)[0].y == 280,
        placed(items)[i].y - placed(items)[i + 1].y == items[i].gap,
    decreases items.len(),
{
    let d = items.drop_last();
    lemma_placed(items);
    lemma_placed(d);
    lemma_next_y(d);
    assert(placed(d)[0].y == 280) by {
        lemma_first(d);
    }
    if i < d.len() - 1 {
        assert forall|k: int| 0 <= k < d.len() implies (#[trigger] d[k]).gap <= 1000 by {
            assert(d[k] == items[k]);
        }
        law_lines_keep_their_gaps(d, i);
        assert(d[i] == items[i]);
    } else {
        let e = d.drop_last();
        lemma_placed(e);
        assert forall|k: int| 0 <= k < e.len() implies (#[trigger] e[k]).gap <= 1000 by {
            assert(e[k] == items[k]);
        }
        lemma_next_y(e);
        assert(d.last() == items[i]);
        assert(placed(items)[i] == placed(d)[i]);
    }
}

proof fn lemma_placed(items: Seq<Item>)
    ensures
        placed(items).len() == items.len(),
    decreases items.len(),
{
    if items.len() > 0 {
        lemma_placed(items.drop_last());
    }
}

proof fn lemma_first(items: Seq<Item>)
    requires
        items.len() > 0,
    ensures
        placed(items)[0].y == 280,
    decreases items.len(),
{
    lemma_placed(items.drop_last());
    if items.len() > 1 {
        lemma_first(items.drop_last());
    }
}

proof fn lemma_next_y(items: Seq<Item>)
    requires
        forall|k: int| 0 <= k < items.len() ==> (#[trigger] items[k]).gap <= 1000,
    ensures
        280 - 1000 * items.len() <= next_y(items) <= 280,
    decreases items.len(),
{
    if items.len() > 0 {
        let d = items.drop_last();
        assert forall|k: int| 0 <= k < d.len() implies (#[trigger] d[k]).gap <= 1000 by {
            assert(d[k] == items[k]);
        }
        lemma_next_y(d);
        assert(items.last() == items[items.len() - 1]);
    }
}

/// The lines placed so far and where the next one goes.
struct Page {
    lines: Vec<Line>,
    y: i128,
    items: Ghost<Seq<Item>>,
}

impl Page {
    spec fn wf(self) -> bool {
        &&& line_views(self.lines@) == placed(self.items@)
        &&& self.y == next_y(self.items@)
        &&& forall|k: int| 0 <= k < self.items@.len() ==> (#[trigger] self.items@[k]).gap <= 1000
        &&& self.items@.len() == self.lines@.len()
    }

    fn new() -> (r: Page)
        ensures
            r.wf(),
            r.items@ == Seq::<Item>::empty(),
    {
        let r = Page { lines: Vec::new(), y: 280, items: Ghost(Seq::empty()) };
        assert(line_views(r.lines@) == placed(r.items@));
        r
    }

    fn put(&mut self, text: String, size: u64, bold: bool, indent: u64, gap: u64)
        requires
            old(self).wf(),
            gap <= 1000,
        ensures
            final(self).wf(),
            final(self).items@ == old(self).items@.push(
                (Item { text: text@, size, bold, indent, gap }),
            ),
    {
        let ghost before = self.items@;
        let ghost item = Item { text: text@, size, bold, indent, gap };
        let y: i128 = self.y;
        let n: usize = self.lines.len();
        proof {
            lemma_next_y(before);
        }
        let ghost lines = self.lines@;
        self.lines.push(Line { text, size, bold, indent, y });
        self.y = y - gap as i128;
        proof {
            self.items@ = before.push(item);
            assert(self.items@.drop_last() == before);
            assert(line_views(self.lines@) == line_views(lines).push(place(item, y as int)));
        }
    }
}

// ---------------------------------------------------------------------------
// The report
// ---------------------------------------------------------------------------

pub open spec fn head_items(secs: i64, r: Reliability) -> Seq<Item> {
    seq![
        Item { text: "Tracium — Network Report"@, size: 20, bold: true, indent: 0, gap: 10 },
        Item {
            text: "Range: last "@ + display::window_text(secs as int),
            size: 11,
            bold: false,
            indent: 0,
            gap: 12,
        },
        heading("Reliability"@),
        entry("Uptime: "@ + report::uptime_text(r), 11, 6),
        entry("Avg latency: "@ + display::measure(r.avg_latency_ms, 1, " ms"@), 11, 6),
        entry("Avg jitter: "@ + display::measure(r.avg_jitter_ms, 1, " ms"@), 11, 6),
        entry("Avg packet loss: "@ + display::measure(r.avg_loss_pct, 1, "%"@), 11, 6),
        entry("Disconnects: "@ + number::dec(r.disconnects as nat), 11, 12),
    ]
}

pub open spec fn score_text(q: QoeAverage) -> Seq<char> {
    "Gaming "@ + display::measure(q.gaming, 0, ""@) + " · VoIP "@ + display::measure(
        q.voip,
        0,
        ""@,
    ) + " · Video "@ + display::measure(q.video_call, 0, ""@) + " · Streaming "@ + display::measure(
        q.streaming,
        0,
        ""@,
    ) + " · Web "@ + display::measure(q.web, 0, ""@)
}

pub open spec fn qoe_items(q: Option<QoeAverage>) -> Seq<Item> {
    match q {
        Some(x) => seq![
            heading("Quality of experience (recent)"@),
            entry(score_text(x), 11, 12),
        ],
        None => Seq::empty(),
    }
}

pub open spec fn resolver_items(v: Seq<rows::StatView>) -> Seq<Item> {
    v.map_values(|s: rows::StatView| entry(watch::resolver_row(s, 16), 10, 6))
}

pub open spec fn dns_items(v: Seq<rows::StatView>) -> Seq<Item> {
    if v.len() == 0 {
        Seq::empty()
    } else {
        seq![heading("DNS resolvers"@)] + resolver_items(v) + seq![
            Item { text: ""@, size: 10, bold: false, indent: 0, gap: 6 },
        ]
    }
}

pub open spec fn outage_item(o: Outage) -> Item {
    entry(
        "start "@ + display::stamp(o.ts_start as int) + "  duration "@ + report::duration_or(
            o.duration_ms,
            "ongoing"@,
        ),
        10,
        6,
    )
}

pub open spec fn incident_items(v: Seq<Outage>) -> Seq<Item> {
    if v.len() == 0 {
        seq![heading("Incidents"@), entry("No outages recorded."@, 11, 6)]
    } else {
        seq![heading("Incidents"@)] + v.map_values(|o: Outage| outage_item(o))
    }
}

/// Everything on the page, from top to bottom.
pub open spec fn report_items(
    secs: i64,
    r: Reliability,
    q: Option<QoeAverage>,
    dns: Seq<rows::StatView>,
    outages: Seq<Outage>,
) -> Seq<Item> {
    head_items(secs, r) + qoe_items(q) + dns_items(dns) + incident_items(outages)
}

fn labelled(label: &str, value: String) -> (r: String)
    ensures
        r@ == label@ + value@,
{
    let mut out = label.to_string();
    out.append(value.as_str());
    out
}

fn put_head(page: &mut Page, secs: i64, r: &Reliability)
    requires
        old(page).wf(),
        old(page).items@ == Seq::<Item>::empty(),
    ensures
        final(page).wf(),
        final(page).items@ == head_items(secs, *r),
{
    page.put("Tracium — Network Report".to_string(), 20, true, 0, 10);
    page.put(labelled("Range: last ", display::human(secs)), 11, false, 0, 12);
    page.put("Reliability".to_string(), 14, true, 0, 7);
    page.put(labelled("Uptime: ", report::uptime_of(r)), 11, false, 4, 6);
    page.put(
        labelled("Avg latency: ", display::measure_text(r.avg_latency_ms, 1, " ms")),
        11,
        false,
        4,
        6,
    );
    page.put(
        labelled("Avg jitter: ", display::measure_text(r.avg_jitter_ms, 1, " ms")),
        11,
        false,
        4,
        6,
    );
    page.put(
        labelled("Avg packet loss: ", display::measure_text(r.avg_loss_pct, 1, "%")),
        11,
        false,
        4,
        6,
    );
    page.put(labelled("Disconnects: ", number::u64_text(r.disconnects)), 11, false, 4, 12);
    assert(page.items@ =~= head_items(secs, *r));
}

fn score_line(q: &QoeAverage) -> (r: String)
    ensures
        r@ == score_text(*q),
{
    let mut out = "Gaming ".to_string();
    out.append(display::measure_text(q.gaming, 0, "").as_str());
    out.append(" · VoIP ");
    out.append(display::measure_text(q.voip, 0, "").as_str());
    out.append(" · Video ");
    out.append(display::measure_text(q.video_call, 0, "").as_str());
    out.append(" · Streaming ");
    out.append(display::measure_text(q.streaming, 0, "").as_str());
    out.append(" · Web ");
    out.append(display::measure_text(q.web, 0, "").as_str());
    out
}

fn put_qoe(page: &mut Page, q: &Option<QoeAverage>)
    requires
        old(page).wf(),
    ensures
        final(page).wf(),
        final(page).items@ == old(page).items@ + qoe_items(*q),
{
    match q {
        Some(x) => {
            page.put("Quality of experience (recent)".to_string(), 14, true, 0, 7);
            page.put(score_line(x), 11, false, 4, 12);
        },
        None => {},
    }
    assert(page.items@ =~= old(page).items@ + qoe_items(*q));
}

fn put_dns(page: &mut Page, v: &Vec<DnsResolverStat>)
    requires
        old(page).wf(),
    ensures
        final(page).wf(),
        final(page).items@ == old(page).items@ + dns_items(rows::stat_views(v@)),
{
    let ghost w = rows::stat_views(v@);
    let ghost all = resolver_items(w);
    let ghost start = page.items@;
    if v.len() > 0 {
        page.put("DNS resolvers".to_string(), 14, true, 0, 7);
        let ghost head = seq![heading("DNS resolvers"@)];
        let mut i: usize = 0;
        assert(page.items@ =~= start + head + all.take(0));
        while i < v.len()
            invariant
                i <= v.len(),
                page.wf(),
                w == rows::stat_views(v@),
                all == resolver_items(w),
                page.items@ == start + head + all.take(i as int),
            decreases v.len() - i,
        {
            assert(w[i as int] == v@[i as int]@);
            page.put(watch::resolver_text(&v[i], 16), 10, false, 4, 6);
            assert(page.items@ =~= start + head + all.take(i + 1));
            i += 1;
        }
        assert(all.take(all.len() as int) == all);
        page.put("".to_string(), 10, false, 0, 6);
    }
    assert(page.items@ =~= start + dns_items(w));
}

fn outage_line(o: &Outage) -> (r: String)
    ensures
        r@ == outage_item(*o).text,
{
    let mut out = "start ".to_string();
    out.append(display::fmt_ts(o.ts_start).as_str());
    out.append("  duration ");
    out.append(report::duration_text(o.duration_ms, "ongoing").as_str());
    out
}

fn put_incidents(page: &mut Page, list: &Vec<&Outage>)
    requires
        old(page).wf(),
    ensures
        final(page).wf(),
        final(page).items@ == old(page).items@ + incident_items(tables::all_behind(list@)),
{
    let ghost v = tables::all_behind(list@);
    let ghost start = page.items@;
    page.put("Incidents".to_string(), 14, true, 0, 7);
    if list.len() == 0 {
        page.put("No outages recorded.".to_string(), 11, false, 4, 6);
    } else {
        let ghost all = v.map_values(|o: Outage| outage_item(o));
        let ghost head = seq![heading("Incidents"@)];
        let mut i: usize = 0;
        assert(page.items@ =~= start + head + all.take(0));
        while i < list.len()
            invariant
                i <= list.len(),
                page.wf(),
                v == tables::all_behind(list@),
                all == v.map_values(|o: Outage| outage_item(o)),
                page.items@ == start + head + all.take(i as int),
            decreases list.len() - i,
        {
            assert(v[i as int] == *list@[i as int]);
            page.put(outage_line(list[i]), 10, false, 4, 6);
            assert(page.items@ =~= start + head + all.take(i + 1));
            i += 1;
        }
        assert(all.take(all.len() as int) == all);
    }
    assert(page.items@ =~= start + incident_items(v));
}

impl Store {
    /// The lines of the printed report over the last `secs` seconds.
    pub fn report_lines(&self, now: i64, secs: i64) -> (r: Vec<Line>)
        requires
            now >= i64::MIN + 1_800_000,
        ensures
            line_views(r@) == placed(items_of(*self, now, secs)),
    {
        let since: i64 = display::window_start(now, secs);
        let r = self.reliability_since(since);
        let q = self.qoe_average_since(now - 1_800_000);
        let dns = self.dns_comparison(since);
        let outages = self.recent_outages(15);
        let mut page = Page::new();
        put_head(&mut page, secs, &r);
        put_qoe(&mut page, &q);
        put_dns(&mut page, &dns);
        put_incidents(&mut page, &outages);
        page.lines
    }
}

/// Each score stands behind the name of its use.
pub proof fn law_printed_scores_stand_behind_their_use(q: QoeAverage)
    ensures
        text::contains(
            score_text(q),
            "Gaming "@ + display::measure(q.gaming, 0, ""@),
        ),
        text::contains(
            score_text(q),
            " · VoIP "@ + display::measure(q.voip, 0, ""@),
        ),
        text::contains(
            score_text(q),
            " · Video "@ + display::measure(q.video_call, 0, ""@),
        ),
        text::contains(
            score_text(q),
            " · Streaming "@ + display::measure(q.streaming, 0, ""@),
        ),
        text::contains(
            score_text(q),
            " · Web "@ + display::measure(q.web, 0, ""@),
        ),
{
    let p = seq![
        "Gaming "@,
        display::measure(q.gaming, 0, ""@),
        " · VoIP "@,
        display::measure(q.voip, 0, ""@),
        " · Video "@,
        display::measure(q.video_call, 0, ""@),
        " · Streaming "@,
        display::measure(q.streaming, 0, ""@),
        " · Web "@,
        display::measure(q.web, 0, ""@),
    ];
    text::lemma_together_last(p, 10);
    text::lemma_together_last(p, 9);
    text::lemma_together_last(p, 8);
    text::lemma_together_last(p, 7);
    text::lemma_together_last(p, 6);
    text::lemma_together_last(p, 5);
    text::lemma_together_last(p, 4);
    text::lemma_together_last(p, 3);
    text::lemma_together_last(p, 2);
    assert(p.take(10) == p);
    assert(text::together(p.take(1)) == p[0]);
    assert(text::together(p) == score_text(q));
    text::lemma_pair_is_found(p, 0);
    text::lemma_pair_is_found(p, 2);
    text::lemma_pair_is_found(p, 4);
    text::lemma_pair_is_found(p, 6);
    text::lemma_pair_is_found(p, 8);
}

/// The items of the report of the last `secs` seconds.
pub open spec fn items_of(s: Store, now: i64, secs: i64) -> Seq<Item> {
    let since = display::start_of(now, secs);
    report_items(
        secs,
        summary::reliability(s.connectivity@, s.outages@, since),
        summary::qoe_mean(s.qoe@, display::half_hour_before(now)),
        summary::comparison(s.dns@, since),
        tables::newest_list(s.outages@, 15),
    )
}

/// The report goes back as many seconds as it is asked for, the scores half an hour, and
/// the fifteen newest outages are listed.
pub proof fn law_report_reaches_back_its_window(s: Store, now: i64, secs: i64)
    requires
        0 <= secs * 1000 <= i64::MAX,
        now - secs * 1000 >= i64::MIN,
        now >= i64::MIN + 1_800_000,
    ensures
        items_of(s, now, secs) == report_items(
            secs,
            summary::reliability(s.connectivity@, s.outages@, (now - 1000 * secs) as i64),
            summary::qoe_mean(s.qoe@, (now - 30 * 60 * 1000) as i64),
            summary::comparison(s.dns@, (now - 1000 * secs) as i64),
            tables::newest_list(s.outages@, 15),
        ),
{
    display::law_windows_reach_back(now, secs);
}

/// The figures of the reliability follow its heading, each behind its name.
pub proof fn law_head_tells_the_figures(secs: i64, r: Reliability)
    ensures
        ({
            let v = head_items(secs, r);
            &&& v.len() == 8
            &&& v[0].size == 20 && v[0].bold
            &&& v[1].text == "Range: last "@ + display::window_text(secs as int)
            &&& v[2].text == "Reliability"@
            &&& v[3].text == "Uptime: "@ + report::uptime_text(r)
            &&& v[4].text == "Avg latency: "@ + display::measure(r.avg_latency_ms, 1, " ms"@)
            &&& v[5].text == "Avg jitter: "@ + display::measure(r.avg_jitter_ms, 1, " ms"@)
            &&& v[6].text == "Avg packet loss: "@ + display::measure(r.avg_loss_pct, 1, "%"@)
            &&& v[7].text == "Disconnects: "@ + number::dec(r.disconnects as nat)
        }),
{
}

/// Headings are large and bold, entries are indented below them.
pub proof fn law_entries_are_indented(text: Seq<char>, size: u64, gap: u64)
    ensures
        heading(text).text == text && heading(text).bold && heading(text).size == 14,
        heading(text).indent == 0 && heading(text).gap == 7,
        entry(text, size, gap).text == text && !entry(text, size, gap).bold,
        entry(text, size, gap).size == size && entry(text, size, gap).indent == 4,
        entry(text, size, gap).gap == gap,
{
}

/// Each resolver and each outage has an entry under the heading of its part. A part without
/// any is left out, but that there was no outage is said.
pub proof fn law_each_row_has_an_entry(
    dns: Seq<rows::StatView>,
    outages: Seq<Outage>,
    q: QoeAverage,
    i: int,
)
    ensures
        dns.len() == 0 ==> dns_items(dns).len() == 0,
        0 <= i < dns.len() ==> {
            &&& dns_items(dns).len() == dns.len() + 2
            &&& dns_items(dns)[0].text == "DNS resolvers"@
            &&& dns_items(dns)[i + 1].text == watch::resolver_row(dns[i], 16)
        },
        outages.len() == 0 ==> incident_items(outages).len() == 2 && incident_items(outages)[1].text
            == "No outages recorded."@,
        0 <= i < outages.len() ==> {
            &&& incident_items(outages).len() == outages.len() + 1
            &&& incident_items(outages)[i + 1].text == "start "@ + display::stamp(
                outages[i].ts_start as int,
            ) + "  duration "@ + report::duration_or(outages[i].duration_ms, "ongoing"@)
        },
        incident_items(outages)[0].text == "Incidents"@,
        qoe_items(None).len() == 0,
        qoe_items(Some(q)).len() == 2,
        qoe_items(Some(q))[0].text == "Quality of experience (recent)"@,
        qoe_items(Some(q))[1].text == score_text(q),
{
}

/// The parts of the report follow each other: reliability, scores, resolvers and incidents.
pub proof fn law_parts_follow_each_other(
    secs: i64,
    r: Reliability,
    q: Option<QoeAverage>,
    dns: Seq<rows::StatView>,
    outages: Seq<Outage>,
)
    ensures
        head_items(secs, r).is_prefix_of(report_items(secs, r, q, dns, outages)),
        incident_items(outages).is_suffix_of(report_items(secs, r, q, dns, outages)),
        report_items(secs, r, q, dns, outages).len() == 8 + qoe_items(q).len()
            + dns_items(dns).len()
            + incident_items(outages).len(),
        report_items(secs, r, q, dns, outages).subrange(8, 8 + qoe_items(q).len() as int)
            == qoe_items(q),
{
    let v = report_items(secs, r, q, dns, outages);
    let n = incident_items(outages).len() as int;
    assert(v.subrange(0, 8) == head_items(secs, r));
    assert(v.subrange(v.len() - n, v.len() as int) == incident_items(outages));
}

/// A line is placed with the looks of its item.
pub proof fn law_lines_keep_their_looks(items: Seq<Item>, item: Item, i: int)
    requires
        0 <= i < items.len(),
    ensures
        placed(items).len() == items.len(),
        placed(items)[i].text == items[i].text,
        placed(items)[i].size == items[i].size,
        placed(items)[i].bold == items[i].bold,
        placed(items)[i].indent == items[i].indent,
        next_y(Seq::empty()) == 280,
        next_y(items.push(item)) == next_y(items) - item.gap,
    decreases items.len(),
{
    assert(items.push(item).drop_last() == items);
    if i < items.len() - 1 {
        law_lines_keep_their_looks(items.drop_last(), item, i);
        assert(items.drop_last()[i] == items[i]);
    } else if items.len() > 1 {
        law_lines_keep_their_looks(items.drop_last(), item, 0);
    } else {
        assert(placed(items.drop_last()).len() == 0);
    }
}

} // verus!
