//! CSV exports.

use vstd::prelude::*;

use crate::number;
use crate::order;
use crate::rows;
use crate::rows::{ConnectivitySample, Event, Stamped};
use crate::store::Store;
use crate::text;

verus! {

// ---------------------------------------------------------------------------
// Fields
// ---------------------------------------------------------------------------

/// `s` with every double quote doubled.
pub open spec fn doubled(s: Seq<char>) -> Seq<char>
    decreases s.len(),
{
    if s.len() == 0 {
        s
    } else if s.last() == '"' {
        doubled(s.drop_last()).push('"').push('"')
    } else {
        doubled(s.drop_last()).push(s.last())
    }
}

/// Whether a field has to be quoted: it holds a comma, a quote or a line break.
pub open spec fn needs_quotes(s: Seq<char>) -> bool {
    s.contains(',') || s.contains('"') || s.contains('\n') || s.contains('\r')
}

/// A field as CSV writes it.
pub open spec fn field(s: Seq<char>) -> Seq<char> {
    if needs_quotes(s) {
        seq!['"'] + doubled(s) + seq!['"']
    } else {
        s
    }
}

/// The text that a quoted body stands for: each pair of quotes is one.
pub open spec fn undoubled(s: Seq<char>) -> Seq<char>
    decreases s.len(),
{
    if s.len() == 0 {
        s
    } else if s.len() >= 2 && s.last() == '"' && s[s.len() - 2] == '"' {
        undoubled(s.take(s.len() - 2)).push('"')
    } else {
        undoubled(s.drop_last()).push(s.last())
    }
}

/// The text that a CSV field stands for.
pub open spec fn unquoted(s: Seq<char>) -> Seq<char> {
    if s.len() >= 2 && s[0] == '"' && s.last() == '"' {
        undoubled(s.subrange(1, s.len() - 1))
    } else {
        s
    }
}

proof fn lemma_undoubled(s: Seq<char>)
    ensures
        undoubled(doubled(s)) == s,
    decreases s.len(),
{
    if s.len() > 0 {
        let d = s.drop_last();
        lemma_undoubled(d);
        let x = doubled(s);
        if s.last() == '"' {
            assert(x.take(x.len() - 2) == doubled(d));
        } else {
            assert(x.drop_last() == doubled(d));
        }
        assert(d.push(s.last()) == s);
    }
}

/// Reading a written field gives back its text.
pub proof fn law_csv_fields_round_trip(s: Seq<char>)
    ensures
        unquoted(field(s)) == s,
{
    if needs_quotes(s) {
        lemma_undoubled(s);
        assert(field(s).subrange(1, field(s).len() - 1) == doubled(s));
    } else if s.len() > 0 {
        assert(s[0] != '"') by {
            assert(s.contains(s[0]));
        }
    }
}

/// A field that is written without quotes holds no separator and no line break.
pub proof fn law_bare_fields_hold_no_separator(s: Seq<char>)
    requires
        field(s) == s,
    ensures
        !s.contains(','),
        !s.contains('\n'),
        !s.contains('\r'),
        !s.contains('"'),
{
    if needs_quotes(s) {
        lemma_doubled_len(s);
        assert(field(s).len() >= s.len() + 2);
    }
}

proof fn lemma_doubled_len(s: Seq<char>)
    ensures
        doubled(s).len() >= s.len(),
    decreases s.len(),
{
    if s.len() > 0 {
        lemma_doubled_len(s.drop_last());
    }
}

/// Quotes a CSV field if it has to be.
pub fn csv_field(s: &str) -> (r: String)
    ensures
        r@ == field(s@),
{
    let c = text::chars(s);
    if !(text::has_char(&c, ',') || text::has_char(&c, '"') || text::has_char(&c, '\n')
        || text::has_char(&c, '\r')) {
        return s.to_string();
    }
    let mut out = String::new();
    out.push('"');
    let mut i: usize = 0;
    while i < c.len()
        invariant
            i <= c.len(),
            out@ == seq!['"'] + doubled(c@.take(i as int)),
        decreases c.len() - i,
    {
        assert(c@.take(i + 1).drop_last() == c@.take(i as int));
        if c[i] == '"' {
            out.push('"');
        }
        out.push(c[i]);
        assert(out@ == seq!['"'] + doubled(c@.take(i + 1)));
        i += 1;
    }
    assert(c@.take(c@.len() as int) == c@);
    out.push('"');
    assert(out@ == field(s@));
    out
}

// ---------------------------------------------------------------------------
// Numbers
// ---------------------------------------------------------------------------

/// The decimal places of a fraction of `width` digits, without trailing zeros.
pub open spec fn fraction(n: nat, width: nat) -> Seq<char>
    decreases width,
{
    if width > 0 && n % 10 == 0 {
        fraction(n / 10, (width - 1) as nat)
    } else {
        number::padded(n, width)
    }
}

/// A quantity in billionths as a plain decimal.
pub open spec fn plain(n: nat) -> Seq<char> {
    if n % 1_000_000_000 == 0 {
        number::dec(n / 1_000_000_000)
    } else {
        number::dec(n / 1_000_000_000) + seq!['.'] + fraction(n % 1_000_000_000, 9)
    }
}

fn push_plain(out: &mut String, n: u64)
    ensures
        final(out)@ == old(out)@ + plain(n as nat),
{
    number::push_u64(out, n / 1_000_000_000);
    let mut part: u64 = n % 1_000_000_000;
    if part == 0 {
        return;
    }
    out.push('.');
    let mut width: u64 = 9;
    while width > 0 && part % 10 == 0
        invariant
            width <= 9,
            fraction(part as nat, width as nat) == fraction((n % 1_000_000_000) as nat, 9),
        decreases width,
    {
        part = part / 10;
        width -= 1;
    }
    number::push_padded(out, part as u128, width);
    assert(out@ == old(out)@ + plain(n as nat));
}

/// A quantity in billionths as a plain decimal.
pub fn plain_text(n: u64) -> (r: String)
    ensures
        r@ == plain(n as nat),
{
    let mut out = String::new();
    push_plain(&mut out, n);
    assert(out@ == plain(n as nat));
    out
}

/// An optional quantity: nothing where there is none.
pub open spec fn plain_or_empty(n: Option<u64>) -> Seq<char> {
    match n {
        Some(x) => plain(x as nat),
        None => Seq::empty(),
    }
}

fn push_optional(out: &mut String, n: Option<u64>)
    ensures
        final(out)@ == old(out)@ + plain_or_empty(n),
{
    match n {
        Some(x) => {
            push_plain(out, x);
        },
        None => {
            assert(out@ == old(out)@ + plain_or_empty(n));
        },
    }
}

// ---------------------------------------------------------------------------
// Connectivity
// ---------------------------------------------------------------------------

pub open spec fn sample_line(s: ConnectivitySample) -> Seq<char> {
    number::dec_int(s.ts as int) + ","@ + number::dec_int(s.target_id as int) + ","@
        + number::dec_int(s.ip_version as int) + ","@ + number::dec_int(s.sent as int) + ","@
        + number::dec_int(s.received as int) + ","@ + plain(s.loss_pct as nat) + ","@
        + plain_or_empty(s.rtt_min) + ","@ + plain_or_empty(s.rtt_avg) + ","@ + plain_or_empty(
        s.rtt_max,
    ) + ","@ + plain_or_empty(s.rtt_jitter) + ","@ + (if s.up {
        "1\n"@
    } else {
        "0\n"@
    })
}

fn sample_text(s: &ConnectivitySample) -> (r: String)
    ensures
        r@ == sample_line(*s),
{
    let mut out = number::i64_text(s.ts);
    out.append(",");
    number::push_i64(&mut out, s.target_id);
    out.append(",");
    number::push_i64(&mut out, s.ip_version);
    out.append(",");
    number::push_i64(&mut out, s.sent);
    out.append(",");
    number::push_i64(&mut out, s.received);
    out.append(",");
    push_plain(&mut out, s.loss_pct);
    out.append(",");
    push_optional(&mut out, s.rtt_min);
    out.append(",");
    push_optional(&mut out, s.rtt_avg);
    out.append(",");
    push_optional(&mut out, s.rtt_max);
    out.append(",");
    push_optional(&mut out, s.rtt_jitter);
    out.append(",");
    if s.up {
        out.append("1\n");
    } else {
        out.append("0\n");
    }
    out
}

/// The lines of the samples since a time, in the given order.
pub open spec fn sample_lines(v: Seq<ConnectivitySample>, ord: Seq<usize>, since: i64) -> Seq<char>
    decreases ord.len(),
{
    if ord.len() == 0 {
        Seq::empty()
    } else {
        let s = v[ord.last() as int];
        let before = sample_lines(v, ord.drop_last(), since);
        if s.ts >= since {
            before + sample_line(s)
        } else {
            before
        }
    }
}

/// The rows' indices, the oldest first.
pub open spec fn oldest_first(times: Seq<i64>) -> Seq<usize> {
    order::ascending(times.map_values(|t: i64| t as i128), times.len())
}

fn oldest<T: Stamped>(table: &Vec<T>) -> (r: Vec<usize>)
    ensures
        r@ == oldest_first(rows::stamps(table@)),
        forall|i: int| 0 <= i < r@.len() ==> (#[trigger] r@[i]) < table@.len(),
{
    let times = rows::stamps_of(table);
    let ghost v = times@.map_values(|t: i64| t as i128);
    let mut keys: Vec<i128> = Vec::new();
    let mut i: usize = 0;
    while i < times.len()
        invariant
            i <= times.len(),
            v == times@.map_values(|t: i64| t as i128),
            keys@ == v.take(i as int),
        decreases times.len() - i,
    {
        keys.push(times[i] as i128);
        assert(keys@ == v.take(i + 1));
        i += 1;
    }
    assert(keys@ == v);
    order::ascending_order(&keys)
}

/// The samples since a time under their header, the oldest first.
pub open spec fn connectivity_csv(v: Seq<ConnectivitySample>, since: i64) -> Seq<char> {
    "ts,target_id,ip_version,sent,received,loss_pct,rtt_min,rtt_avg,rtt_max,rtt_jitter,up\n"@
        + sample_lines(v, oldest_first(rows::stamps(v)), since)
}

impl Store {
    /// The connectivity samples since a time as CSV, the oldest first.
    pub fn export_connectivity_csv(&self, since: i64) -> (r: String)
        ensures
            r@ == connectivity_csv(self.connectivity@, since),
    {
        let ord = oldest(&self.connectivity);
        let mut out =
            "ts,target_id,ip_version,sent,received,loss_pct,rtt_min,rtt_avg,rtt_max,rtt_jitter,up\n".to_string();
        let ghost head = out@;
        let mut k: usize = 0;
        assert(out@ == head + sample_lines(self.connectivity@, ord@.take(0), since));
        while k < ord.len()
            invariant
                k <= ord.len(),
                forall|i: int| 0 <= i < ord@.len() ==> (#[trigger] ord@[i]) < self.connectivity@.len(),
                out@ == head + sample_lines(self.connectivity@, ord@.take(k as int), since),
            decreases ord.len() - k,
        {
            assert(ord@.take(k + 1).drop_last() == ord@.take(k as int));
            let ghost before = sample_lines(self.connectivity@, ord@.take(k as int), since);
            let s = &self.connectivity[ord[k]];
            if s.ts >= since {
                out.append(sample_text(s).as_str());
                assert(head + before + sample_line(*s) == head + (before + sample_line(*s)));
            }
            k += 1;
        }
        assert(ord@.take(ord@.len() as int) == ord@);
        out
    }
}

// ---------------------------------------------------------------------------
// Events
// ---------------------------------------------------------------------------

pub open spec fn int_or_empty(n: Option<i64>) -> Seq<char> {
    match n {
        Some(x) => number::dec_int(x as int),
        None => Seq::empty(),
    }
}

pub open spec fn text_or_empty(t: Option<Seq<char>>) -> Seq<char> {
    match t {
        Some(s) => s,
        None => Seq::empty(),
    }
}

pub open spec fn event_line(e: Event) -> Seq<char> {
    number::dec_int(e.ts as int) + ","@ + field(e.kind@) + ","@ + field(e.severity@) + ","@
        + int_or_empty(e.duration_ms) + ","@ + field(text_or_empty(text::opt_text(e.payload)))
        + "\n"@
}

fn event_text(e: &Event) -> (r: String)
    ensures
        r@ == event_line(*e),
{
    let empty = String::new();
    let duration = match e.duration_ms {
        Some(d) => number::i64_text(d),
        None => String::new(),
    };
    let payload: &str = match &e.payload {
        Some(p) => p.as_str(),
        None => empty.as_str(),
    };
    let mut out = number::i64_text(e.ts);
    out.append(",");
    out.append(csv_field(e.kind.as_str()).as_str());
    out.append(",");
    out.append(csv_field(e.severity.as_str()).as_str());
    out.append(",");
    out.append(duration.as_str());
    out.append(",");
    out.append(csv_field(payload).as_str());
    out.append("\n");
    out
}

/// The lines of the events since a time, in the given order.
pub open spec fn event_lines(v: Seq<Event>, ord: Seq<usize>, since: i64) -> Seq<char>
    decreases ord.len(),
{
    if ord.len() == 0 {
        Seq::empty()
    } else {
        let e = v[ord.last() as int];
        let before = event_lines(v, ord.drop_last(), since);
        if e.ts >= since {
            before + event_line(e)
        } else {
            before
        }
    }
}

/// The events since a time under their header, the oldest first.
pub open spec fn events_csv(v: Seq<Event>, since: i64) -> Seq<char> {
    "ts,kind,severity,duration_ms,payload\n"@ + event_lines(
        v,
        oldest_first(rows::stamps(v)),
        since,
    )
}

impl Store {
    /// The events since a time as CSV, the oldest first.
    pub fn export_events_csv(&self, since: i64) -> (r: String)
        ensures
            r@ == events_csv(self.events@, since),
    {
        let ord = oldest(&self.events);
        let mut out = "ts,kind,severity,duration_ms,payload\n".to_string();
        let ghost head = out@;
        let mut k: usize = 0;
        assert(out@ == head + event_lines(self.events@, ord@.take(0), since));
        while k < ord.len()
            invariant
                k <= ord.len(),
                forall|i: int| 0 <= i < ord@.len() ==> (#[trigger] ord@[i]) < self.events@.len(),
                out@ == head + event_lines(self.events@, ord@.take(k as int), since),
            decreases ord.len() - k,
        {
            assert(ord@.take(k + 1).drop_last() == ord@.take(k as int));
            let ghost before = event_lines(self.events@, ord@.take(k as int), since);
            let e = &self.events[ord[k]];
            if e.ts >= since {
                out.append(event_text(e).as_str());
                assert(head + before + event_line(*e) == head + (before + event_line(*e)));
            }
            k += 1;
        }
        assert(ord@.take(ord@.len() as int) == ord@);
        out
    }
}

/// Samples are written line by line, those of the window and no older ones.
pub proof fn law_samples_of_the_window_are_exported(
    v: Seq<ConnectivitySample>,
    a: Seq<usize>,
    b: Seq<usize>,
    i: usize,
    since: i64,
)
    ensures
        sample_lines(v, a + b, since) == sample_lines(v, a, since) + sample_lines(v, b, since),
        sample_lines(v, seq![i], since) == (if v[i as int].ts >= since {
            sample_line(v[i as int])
        } else {
            Seq::empty()
        }),
        sample_lines(v, Seq::empty(), since) == Seq::<char>::empty(),
    decreases b.len(),
{
    reveal_with_fuel(sample_lines, 2);
    assert(seq![i].drop_last() == Seq::<usize>::empty());
    if b.len() == 0 {
        assert(a + b == a);
        assert(sample_lines(v, a, since) + Seq::<char>::empty() == sample_lines(v, a, since));
    } else {
        law_samples_of_the_window_are_exported(v, a, b.drop_last(), i, since);
        assert((a + b).drop_last() == a + b.drop_last());
        assert((a + b).last() == b.last());
        assert(sample_lines(v, a + b, since) == sample_lines(v, a, since)
            + sample_lines(v, b, since));
    }
}

/// Events are written line by line, those of the window and no older ones.
pub proof fn law_events_of_the_window_are_exported(
    v: Seq<Event>,
    a: Seq<usize>,
    b: Seq<usize>,
    i: usize,
    since: i64,
)
    ensures
        event_lines(v, a + b, since) == event_lines(v, a, since) + event_lines(v, b, since),
        event_lines(v, seq![i], since) == (if v[i as int].ts >= since {
            event_line(v[i as int])
        } else {
            Seq::empty()
        }),
        event_lines(v, Seq::empty(), since) == Seq::<char>::empty(),
    decreases b.len(),
{
    reveal_with_fuel(event_lines, 2);
    assert(seq![i].drop_last() == Seq::<usize>::empty());
    if b.len() == 0 {
        assert(a + b == a);
        assert(event_lines(v, a, since) + Seq::<char>::empty() == event_lines(v, a, since));
    } else {
        law_events_of_the_window_are_exported(v, a, b.drop_last(), i, since);
        assert((a + b).drop_last() == a + b.drop_last());
        assert((a + b).last() == b.last());
        assert(event_lines(v, a + b, since) == event_lines(v, a, since) + event_lines(v, b, since));
    }
}

/// Rows are exported oldest first, each of them, under the names of the columns.
pub proof fn law_exports_go_from_old_to_new(
    samples: Seq<ConnectivitySample>,
    events: Seq<Event>,
    since: i64,
    times: Seq<i64>,
    i: int,
    j: int,
)
    requires
        times.len() <= usize::MAX,
        0 <= i < j < times.len(),
    ensures
        oldest_first(times).len() == times.len(),
        times[oldest_first(times)[i] as int] <= times[oldest_first(times)[j] as int],
        oldest_first(times).contains(i as usize),
        connectivity_csv(samples, since)
            == "ts,target_id,ip_version,sent,received,loss_pct,rtt_min,rtt_avg,rtt_max,rtt_jitter,up\n"@
            + sample_lines(
            samples,
            oldest_first(samples.map_values(|s: ConnectivitySample| s.ts)),
            since,
        ),
        events_csv(events, since) == "ts,kind,severity,duration_ms,payload\n"@ + event_lines(
            events,
            oldest_first(events.map_values(|e: Event| e.ts)),
            since,
        ),
{
    let keys = times.map_values(|t: i64| t as i128);
    let ord = oldest_first(times);
    order::law_ascending_is_the_order(keys, times.len());
    assert(order::before(keys, ord[i], ord[j]));
    assert(rows::stamps(samples) == samples.map_values(|s: ConnectivitySample| s.ts));
    assert(rows::stamps(events) == events.map_values(|e: Event| e.ts));
}

/// Parts with a comma between each two.
pub open spec fn joined(parts: Seq<Seq<char>>) -> Seq<char>
    decreases parts.len(),
{
    if parts.len() == 0 {
        Seq::empty()
    } else if parts.len() == 1 {
        parts[0]
    } else {
        joined(parts.drop_last()) + ","@ + parts.last()
    }
}

/// A part without a comma behind a text is the last of its parts.
proof fn lemma_last_column(a: Seq<char>, b: Seq<char>)
    requires
        !b.contains(','),
    ensures
        text::split(a + seq![','] + b, ',') == text::split(a, ',').push(b),
    decreases a.len(),
{
    let s = a + seq![','] + b;
    text::lemma_until(a, ',');
    let n = text::until(a, ',') as int;
    let first = a.take(n);
    assert forall|i: int| 0 <= i < first.len() implies first[i] != ',' by {
        assert(first[i] == a[i]);
    }
    text::law_texts_are_split_at_every_separator(b, ',', b);
    if n < a.len() {
        let rest = a.skip(n + 1);
        lemma_last_column(rest, b);
        text::law_texts_are_split_at_every_separator(first, ',', rest + seq![','] + b);
        assert(s == first + seq![','] + (rest + seq![','] + b));
        text::law_texts_are_split_at_every_separator(first, ',', rest);
        assert(a == first + seq![','] + rest);
        assert(text::split(s, ',') == text::split(a, ',').push(b));
    } else {
        assert(first == a);
        text::law_texts_are_split_at_every_separator(a, ',', b);
        assert(seq![a] + seq![b] == seq![a].push(b));
    }
}

/// Joined parts are read back, where none holds a comma.
pub proof fn lemma_joined_parts_are_read_back(parts: Seq<Seq<char>>)
    requires
        parts.len() > 0,
        forall|i: int| 0 <= i < parts.len() ==> !(#[trigger] parts[i]).contains(','),
    ensures
        text::split(joined(parts), ',') == parts,
    decreases parts.len(),
{
    assert(!parts[parts.len() - 1].contains(','));
    if parts.len() == 1 {
        text::law_texts_are_split_at_every_separator(parts[0], ',', parts[0]);
        assert(seq![parts[0]] == parts);
    } else {
        let w = parts.drop_last();
        assert forall|i: int| 0 <= i < w.len() implies !(#[trigger] w[i]).contains(',') by {
            assert(w[i] == parts[i]);
        }
        lemma_joined_parts_are_read_back(w);
        reveal_strlit(",");
        assert(","@ == seq![',']);
        lemma_last_column(joined(w), parts.last());
        assert(w.push(parts.last()) == parts);
    }
}

/// Written numbers hold no comma.
proof fn lemma_no_comma(n: int, m: nat)
    ensures
        !number::dec_int(n).contains(','),
        !plain(m).contains(','),
{
    let k = if n < 0 {
        (-n) as nat
    } else {
        n as nat
    };
    number::lemma_decimal_of_dec(k);
    let d = number::dec_int(n);
    assert forall|i: int| 0 <= i < d.len() implies d[i] != ',' by {
        if n >= 0 {
            assert(number::is_digit(number::dec(k)[i]));
        } else if i > 0 {
            assert(number::is_digit(number::dec(k)[i - 1]));
        }
    }
    let q = number::dec(m / 1_000_000_000);
    let r = (m % 1_000_000_000) as nat;
    number::lemma_decimal_of_dec(m / 1_000_000_000);
    number::lemma_pow10_values();
    if r > 0 {
        lemma_fraction(r, 9);
    }
    let p = plain(m);
    assert forall|i: int| 0 <= i < p.len() implies p[i] != ',' by {
        if i < q.len() {
            assert(number::is_digit(q[i]));
            assert(p[i] == q[i]);
        } else if i > q.len() {
            assert(number::is_digit(fraction(r, 9)[i - q.len() - 1]));
            assert(p[i] == fraction(r, 9)[i - q.len() - 1]);
        }
    }
}

/// The digits behind the point are worth the fraction, and the last is no zero.
proof fn lemma_fraction(r: nat, width: nat)
    requires
        0 < r < number::pow10(width),
    ensures
        ({
            let f = fraction(r, width);
            &&& number::all_digits(f)
            &&& 0 < f.len() <= width
            &&& f.last() != '0'
            &&& number::decimal(f) * number::pow10((width - f.len()) as nat) == r
        }),
    decreases width,
{
    let f = fraction(r, width);
    if width > 0 && r % 10 == 0 {
        lemma_fraction(r / 10, (width - 1) as nat);
        let k = (width - 1 - f.len()) as nat;
        let (x, y) = (number::decimal(f) as int, number::pow10(k) as int);
        assert(x * (10 * y) == 10 * (x * y)) by (nonlinear_arith);
        assert(number::pow10((width - f.len()) as nat) == 10 * number::pow10(k));
    } else {
        number::law_places_are_filled_with_zeros(r, width);
        let (x, y) = (number::decimal(f) as int, number::pow10(0) as int);
        assert(x * y == x) by (nonlinear_arith)
            requires
                y == 1,
        ;
        assert(f.last() == number::digit_char(r % 10));
    }
}

/// An exported figure is read back to the billionth, and has no needless zero behind the
/// point.
pub proof fn law_exported_figures_are_read_back(n: nat)
    requires
        n <= i64::MAX,
    ensures
        number::reading(plain(n)) == Some(number::Reading { billionths: n as i64 }),
        plain(n).contains('.') ==> plain(n).last() != '0',
{
    let q = n / 1_000_000_000;
    let r = (n % 1_000_000_000) as nat;
    let w = number::dec(q);
    number::lemma_decimal_of_dec(q);
    number::lemma_pow10_values();
    if r > 0 {
        lemma_fraction(r, 9);
        number::law_decimals_are_read(w, fraction(r, 9));
        assert(plain(n) == w + seq!['.'] + fraction(r, 9));
        assert(plain(n).last() == fraction(r, 9).last());
    } else {
        assert(number::decimal(Seq::<char>::empty()) == 0);
        number::law_decimals_are_read(w, Seq::empty());
        if w.contains('.') {
            let i = choose|i: int| 0 <= i < w.len() && w[i] == '.';
            assert(number::is_digit(w[i]));
        }
    }
}

/// The line of a sample holds its figures in the order of the columns; a figure that is
/// not known is left empty.
#[verifier::rlimit(60)]
pub proof fn law_sample_lines_hold_the_columns(s: ConnectivitySample)
    ensures
        ({
            let line = sample_line(s);
            &&& line.last() == '\n'
            &&& text::split(line.drop_last(), ',') == seq![
                number::dec_int(s.ts as int),
                number::dec_int(s.target_id as int),
                number::dec_int(s.ip_version as int),
                number::dec_int(s.sent as int),
                number::dec_int(s.received as int),
                plain(s.loss_pct as nat),
                plain_or_empty(s.rtt_min),
                plain_or_empty(s.rtt_avg),
                plain_or_empty(s.rtt_max),
                plain_or_empty(s.rtt_jitter),
                if s.up {
                    seq!['1']
                } else {
                    seq!['0']
                },
            ]
        }),
        forall|x: u64| #[trigger] plain_or_empty(Some(x)) == plain(x as nat),
        plain_or_empty(None) == Seq::<char>::empty(),
{
    let up = if s.up {
        seq!['1']
    } else {
        seq!['0']
    };
    let parts = seq![
        number::dec_int(s.ts as int),
        number::dec_int(s.target_id as int),
        number::dec_int(s.ip_version as int),
        number::dec_int(s.sent as int),
        number::dec_int(s.received as int),
        plain(s.loss_pct as nat),
        plain_or_empty(s.rtt_min),
        plain_or_empty(s.rtt_avg),
        plain_or_empty(s.rtt_max),
        plain_or_empty(s.rtt_jitter),
        up,
    ];
    lemma_no_comma(s.ts as int, s.loss_pct as nat);
    lemma_no_comma(s.target_id as int, s.rtt_min.unwrap_or(0) as nat);
    lemma_no_comma(s.ip_version as int, s.rtt_avg.unwrap_or(0) as nat);
    lemma_no_comma(s.sent as int, s.rtt_max.unwrap_or(0) as nat);
    lemma_no_comma(s.received as int, s.rtt_jitter.unwrap_or(0) as nat);
    assert(!up.contains(','));
    lemma_joined_parts_are_read_back(parts);
    lemma_columns(
        parts[0],
        parts[1],
        parts[2],
        parts[3],
        parts[4],
        parts[5],
        parts[6],
        parts[7],
        parts[8],
        parts[9],
        up,
    );
    lemma_line_end(
        parts[0] + ","@ + parts[1] + ","@ + parts[2] + ","@ + parts[3] + ","@ + parts[4] + ","@
            + parts[5] + ","@ + parts[6] + ","@ + parts[7] + ","@ + parts[8] + ","@ + parts[9]
            + ","@,
        s.up,
    );
}

/// Ten columns before the last one.
proof fn lemma_columns(
    a: Seq<char>,
    b: Seq<char>,
    c: Seq<char>,
    d: Seq<char>,
    e: Seq<char>,
    f: Seq<char>,
    g: Seq<char>,
    h: Seq<char>,
    i: Seq<char>,
    j: Seq<char>,
    last: Seq<char>,
)
    ensures
        joined(seq![a, b, c, d, e, f, g, h, i, j, last]) == a + ","@ + b + ","@ + c + ","@ + d
            + ","@ + e + ","@ + f + ","@ + g + ","@ + h + ","@ + i + ","@ + j + ","@ + last,
{
    let p = seq![a, b, c, d, e, f, g, h, i, j, last];
    lemma_join(p, 11);
    lemma_join(p, 10);
    lemma_join(p, 9);
    lemma_join(p, 8);
    lemma_join(p, 7);
    lemma_join(p, 6);
    lemma_join(p, 5);
    lemma_join(p, 4);
    lemma_join(p, 3);
    lemma_join(p, 2);
    assert(p.take(11) == p);
    assert(joined(p.take(1)) == a);
}

/// A line ends behind its last column.
proof fn lemma_line_end(before: Seq<char>, up: bool)
    ensures
        ({
            let line = before + (if up {
                "1\n"@
            } else {
                "0\n"@
            });
            &&& line.last() == '\n'
            &&& line.drop_last() == before + (if up {
                seq!['1']
            } else {
                seq!['0']
            })
        }),
{
    reveal_strlit("1\n");
    reveal_strlit("0\n");
}

proof fn lemma_join(p: Seq<Seq<char>>, n: int)
    requires
        2 <= n <= p.len(),
    ensures
        joined(p.take(n)) == joined(p.take(n - 1)) + ","@ + p[n - 1],
{
    assert(p.take(n).drop_last() == p.take(n - 1));
}

/// The line of an event holds its parts in the order of the columns. Texts are quoted
/// where they have to be; what is not known is left empty.
pub proof fn law_event_lines_hold_the_columns(e: Event)
    requires
        field(e.kind@) == e.kind@,
        field(e.severity@) == e.severity@,
        e.payload is Some ==> field(e.payload->0@) == e.payload->0@,
    ensures
        ({
            let line = event_line(e);
            &&& line.last() == '\n'
            &&& text::split(line.drop_last(), ',') == seq![
                number::dec_int(e.ts as int),
                e.kind@,
                e.severity@,
                match e.duration_ms {
                    Some(d) => number::dec_int(d as int),
                    None => Seq::empty(),
                },
                match e.payload {
                    Some(p) => p@,
                    None => Seq::empty(),
                },
            ]
        }),
{
    let payload = match e.payload {
        Some(p) => p@,
        None => Seq::empty(),
    };
    let duration = match e.duration_ms {
        Some(d) => number::dec_int(d as int),
        None => Seq::empty(),
    };
    let p = seq![number::dec_int(e.ts as int), e.kind@, e.severity@, duration, payload];
    lemma_no_comma(e.ts as int, 0);
    lemma_no_comma(e.duration_ms.unwrap_or(0) as int, 0);
    law_bare_fields_hold_no_separator(e.kind@);
    law_bare_fields_hold_no_separator(e.severity@);
    if e.payload is Some {
        law_bare_fields_hold_no_separator(payload);
    }
    lemma_joined_parts_are_read_back(p);
    lemma_join(p, 5);
    lemma_join(p, 4);
    lemma_join(p, 3);
    lemma_join(p, 2);
    assert(p.take(5) == p);
    assert(joined(p.take(1)) == p[0]);
    assert(field(Seq::<char>::empty()) == Seq::<char>::empty());
    reveal_strlit("\n");
    assert(event_line(e) == joined(p) + "\n"@);
    assert(event_line(e).drop_last() == joined(p));
}

/// A field is quoted if and only if it holds a comma, a quote or the end of a line.
pub proof fn law_fields_are_quoted_in_need(s: Seq<char>)
    ensures
        s.contains(',') || s.contains('"') || s.contains('\n') || s.contains('\r') ==> field(s)
            != s && field(s).len() >= 2 && field(s)[0] == '"' && field(s).last() == '"',
        !(s.contains(',') || s.contains('"') || s.contains('\n') || s.contains('\r')) ==> field(s)
            == s,
{
    lemma_doubled_len(s);
}

} // verus!
