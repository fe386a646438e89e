//! Short texts for people: durations, windows, padded columns, sparklines.

use std::collections::VecDeque;

use vstd::prelude::*;

use crate::number;
use crate::number::Reading;
use crate::text;

verus! {

// ---------------------------------------------------------------------------
// Windows and durations
// ---------------------------------------------------------------------------

/// The seconds of a window such as `24h` or `7d`, or of a bare number of
/// seconds. An unreadable count is 24 hours, one day or one day of seconds. A
/// product past the 64-bit range wraps round.
pub open spec fn window(s: Seq<char>) -> i64 {
    let t = text::trim(s);
    if t.len() > 0 && t.last() == 'h' {
        number::parse_i64(t.drop_last()).unwrap_or(24).wrapping_mul(3600)
    } else if t.len() > 0 && t.last() == 'd' {
        number::parse_i64(t.drop_last()).unwrap_or(1).wrapping_mul(86400)
    } else {
        number::parse_i64(t).unwrap_or(86400)
    }
}

pub fn window_secs(s: &str) -> (r: i64)
    ensures
        r == window(s@),
{
    let all = text::chars(s);
    let t = text::trimmed(&all);
    let n: usize = t.len();
    if n > 0 && (t[n - 1] == 'h' || t[n - 1] == 'd') {
        let head = &t[0..n - 1];
        assert(head@ == t@.drop_last());
        let count = number::read_i64(head);
        if t[n - 1] == 'h' {
            match count {
                Some(c) => c.wrapping_mul(3600),
                None => 24i64.wrapping_mul(3600),
            }
        } else {
            match count {
                Some(c) => c.wrapping_mul(86400),
                None => 1i64.wrapping_mul(86400),
            }
        }
    } else {
        match number::read_i64(t) {
            Some(c) => c,
            None => 86400,
        }
    }
}

/// The start of a window of so many seconds that ends now.
pub fn window_start(now: i64, secs: i64) -> (r: i64)
    ensures
        r == start_of(now, secs),
{
    now.wrapping_sub(secs.wrapping_mul(1000))
}

/// The start of an export of the last `secs` seconds; zero takes everything.
pub fn export_start(now: i64, secs: i64) -> (r: i64)
    ensures
        r == export_from(now, secs),
{
    if secs > 0 {
        window_start(now, secs)
    } else {
        0
    }
}

/// The magnitude of a number.
pub open spec fn size(n: int) -> nat {
    if n < 0 {
        (-n) as nat
    } else {
        n as nat
    }
}

pub open spec fn sign(n: int) -> Seq<char> {
    if n < 0 {
        "-"@
    } else {
        ""@
    }
}

/// `value / unit` with `places` decimal places, with a sign if it is negative.
pub open spec fn signed(value: int, unit: nat, places: nat) -> Seq<char> {
    sign(value) + number::decimal_text(size(value), unit, places)
}

pub fn signed_text(value: i64, unit: u64, places: u64) -> (r: String)
    requires
        unit > 0,
        places <= 3,
    ensures
        r@ == signed(value as int, unit as nat, places as nat),
{
    let mut out = (if value < 0 { "-" } else { "" }).to_string();
    let m: u64 = if value < 0 { (-(value as i128)) as u64 } else { value as u64 };
    number::push_decimal(&mut out, m, unit, places);
    out
}

/// A whole number divided by another, with `places` decimal places and with a
/// sign if it is negative.
pub open spec fn signed_quotient(n: int, by: nat, places: nat) -> Seq<char> {
    sign(n) + number::quotient_text(size(n), by, places)
}

pub fn quotient_of(n: i64, by: u64, places: u64) -> (r: String)
    requires
        by > 0,
        places <= 3,
    ensures
        r@ == signed_quotient(n as int, by as nat, places as nat),
{
    let mut out = (if n < 0 { "-" } else { "" }).to_string();
    let m: u64 = if n < 0 { (-(n as i128)) as u64 } else { n as u64 };
    number::push_quotient(&mut out, m, by, places);
    out
}

/// The seconds of a number of milliseconds, as the fraction that a double holds.
pub open spec fn seconds(ms: nat) -> (nat, nat) {
    number::double(number::whole_double(ms), 1000)
}

/// The seconds divided once more, as the fraction that a double holds.
pub open spec fn seconds_by(ms: nat, by: nat) -> (nat, nat) {
    number::double(seconds(ms).0, seconds(ms).1 * by)
}

/// A duration: whole seconds below a minute, whole minutes below an hour, hours
/// with one decimal place from there.
pub open spec fn duration(ms: int) -> Seq<char> {
    if ms < 60_000 {
        signed_quotient(ms, 1000, 0) + "s"@
    } else if ms < 3_600_000 {
        number::dec(
            number::round_half_up(seconds_by(ms as nat, 60).0, seconds_by(ms as nat, 60).1),
        ) + "m"@
    } else {
        number::fraction_text(seconds_by(ms as nat, 3600), 1) + "h"@
    }
}

fn divided_seconds(ms: u64, by: u128) -> (r: (u128, u128))
    requires
        60_000 <= ms,
        0 < by <= 3600,
    ensures
        (r.0 as nat, r.1 as nat) == seconds_by(ms as nat, by as nat),
        r.0 <= 0x1_0000_0000_0000_0000_0000_0000,
        0 < r.1 < 0x8000_0000_0000_0000_0000_0000_0000_0000,
{
    let w: u128 = number::whole_double_of(ms);
    let (a, b) = number::double_of(w, 1000);
    proof {
        let (x, y, z) = (a as int, b as int, w as int);
        if w >= 1000 * 0x10_0000_0000_0000 {
            assert(x <= 2 * z);
        } else {
            assert(y <= 0x1_0000_0000_0000) by (nonlinear_arith)
                requires
                    y * z <= 1000 * 0x20_0000_0000_0000,
                    z >= 60_000,
                    y >= 0,
            ;
        }
        assert(0 < y * by <= 0x10_0000_0000_0000_0000) by (nonlinear_arith)
            requires
                0 < y <= 0x1_0000_0000_0000,
                0 < by <= 3600,
        ;
    }
    let q: u128 = b * by;
    let (c, d) = number::double_of(a, q);
    proof {
        let (x, y) = (c as int, d as int);
        if a >= q * 0x10_0000_0000_0000 {
            assert(x <= 2 * a) by (nonlinear_arith)
                requires
                    x * q <= 2 * a,
                    q >= 1,
                    x >= 0,
            ;
        } else if a > 0 {
            assert(y <= q * 0x20_0000_0000_0000) by (nonlinear_arith)
                requires
                    y * a <= q * 0x20_0000_0000_0000,
                    a >= 1,
                    y >= 0,
            ;
        }
    }
    (c, d)
}

pub fn fmt_dur(ms: i64) -> (r: String)
    ensures
        r@ == duration(ms as int),
{
    if ms < 60_000 {
        let mut out = quotient_of(ms, 1000, 0);
        out.append("s");
        out
    } else if ms < 3_600_000 {
        let (a, b) = divided_seconds(ms as u64, 60);
        let n: u128 = number::nearest_up(a, b);
        let mut out = String::new();
        number::push_u128(&mut out, n);
        assert(out@ == number::dec(n as nat));
        out.append("m");
        out
    } else {
        let (a, b) = divided_seconds(ms as u64, 3600);
        let mut out = String::new();
        number::push_fraction(&mut out, a, b, 1);
        assert(out@ == number::fraction_text((a as nat, b as nat), 1));
        out.append("h");
        out
    }
}

/// `a / b` cut towards zero.
pub open spec fn cut(a: int, b: int) -> int {
    if a >= 0 {
        a / b
    } else {
        -((-a) / b)
    }
}

pub fn seconds_of(ms: i64) -> (r: i64)
    ensures
        r == cut(ms as int, 1000),
{
    if ms >= 0 {
        ms / 1000
    } else {
        let m: i128 = -(ms as i128);
        (-(m / 1000)) as i64
    }
}

/// A time stamp: `@` and the unix seconds.
pub open spec fn stamp(ms: int) -> Seq<char> {
    "@"@ + number::dec_int(cut(ms, 1000))
}

pub fn fmt_ts(ms: i64) -> (r: String)
    ensures
        r@ == stamp(ms as int),
{
    let mut out = "@".to_string();
    number::push_i64(&mut out, seconds_of(ms));
    out
}

/// A window in the greatest unit that divides it.
pub open spec fn window_text(secs: int) -> Seq<char> {
    if secs % 86400 == 0 {
        number::dec_int(secs / 86400) + "d"@
    } else if secs % 3600 == 0 {
        number::dec_int(secs / 3600) + "h"@
    } else {
        number::dec_int(secs) + "s"@
    }
}

fn divide(a: i64, b: i64) -> (r: Option<i64>)
    requires
        0 < b,
    ensures
        r == (if a as int % b as int == 0 {
            Some((a as int / b as int) as i64)
        } else {
            None
        }),
        a as int % b as int == 0 ==> r is Some && r->0 == a as int / b as int,
{
    if a >= 0 {
        proof {
            assert(0 <= a / b <= a) by (nonlinear_arith)
                requires
                    a >= 0,
                    b > 0,
            ;
        }
        if a % b == 0 {
            Some(a / b)
        } else {
            None
        }
    } else {
        let m: i128 = -(a as i128);
        let n: i128 = b as i128;
        proof {
            let (x, y, z) = (a as int, b as int, m as int);
            assert(x == -z);
            vstd::arithmetic::div_mod::lemma_fundamental_div_mod(z, y);
            let (q, r) = (z / y, z % y);
            if r == 0 {
                assert(x == (-q) * y) by (nonlinear_arith)
                    requires
                        x == -z,
                        z == y * q,
                ;
                vstd::arithmetic::div_mod::lemma_fundamental_div_mod_converse(x, y, -q, 0);
            } else {
                assert(x == (-q - 1) * y + (y - r)) by (nonlinear_arith)
                    requires
                        x == -z,
                        z == y * q + r,
                ;
                vstd::arithmetic::div_mod::lemma_fundamental_div_mod_converse(x, y, -q - 1, y - r);
            }
            assert(0 <= z / y <= z) by (nonlinear_arith)
                requires
                    z > 0,
                    y > 0,
            ;
        }
        if m % n == 0 {
            Some((-(m / n)) as i64)
        } else {
            None
        }
    }
}

pub fn human(secs: i64) -> (r: String)
    ensures
        r@ == window_text(secs as int),
{
    if let Some(n) = divide(secs, 86400) {
        let mut out = number::i64_text(n);
        out.append("d");
        out
    } else if let Some(n) = divide(secs, 3600) {
        let mut out = number::i64_text(n);
        out.append("h");
        out
    } else {
        let mut out = number::i64_text(secs);
        out.append("s");
        out
    }
}

/// A number as it is written has no white space around it.
pub proof fn lemma_number_is_trimmed(n: i64)
    ensures
        text::trim(number::dec_int(n as int)) == number::dec_int(n as int),
{
    let w = number::dec(size(n as int));
    number::lemma_decimal_of_dec(size(n as int));
    assert(number::is_digit(w[0]));
    assert(number::is_digit(w[w.len() - 1]));
    let d = number::dec_int(n as int);
    assert(d.last() == w.last());
    assert(d[0] == w[0] || d[0] == '-');
}

/// A window of whole days or hours is read back from its text.
pub proof fn law_windows_round_trip(secs: i64)
    requires
        secs as int % 3600 == 0,
    ensures
        window(window_text(secs as int)) == secs,
{
    let n = secs as int;
    let unit: int = if n % 86400 == 0 {
        86400
    } else {
        3600
    };
    let count = (n / unit) as i64;
    assert(count * unit == n);
    let d = number::dec_int(count as int);
    let t = window_text(n);
    reveal_strlit("d");
    reveal_strlit("h");
    number::law_integers_round_trip(count);
    number::lemma_decimal_of_dec(size(count as int));
    let w = number::dec(size(count as int));
    assert(number::is_digit(w[0]));
    assert(!text::is_space(d[0])) by {
        if count < 0 {
            assert(d[0] == '-');
        } else {
            assert(d[0] == w[0]);
        }
    }
    assert(t[0] == d[0]);
    assert(t.last() == if unit == 86400 {
        'd'
    } else {
        'h'
    });
    assert(t.drop_last() == d);
    assert(text::trim(t) == t);
}

/// Yes, no or unknown.
pub open spec fn tri_text(v: Option<bool>) -> Seq<char> {
    match v {
        Some(true) => "yes"@,
        Some(false) => "no"@,
        None => "—"@,
    }
}

pub fn tri(v: Option<bool>) -> (r: &'static str)
    ensures
        r@ == tri_text(v),
{
    match v {
        Some(b) => if b {
            "yes"
        } else {
            "no"
        },
        None => "—",
    }
}

// ---------------------------------------------------------------------------
// Columns
// ---------------------------------------------------------------------------

pub open spec fn spaces(n: nat) -> Seq<char> {
    Seq::new(n, |i: int| ' ')
}

/// `s` filled with spaces on the right to a width in characters.
pub open spec fn left(s: Seq<char>, width: nat) -> Seq<char> {
    if s.len() < width {
        s + spaces((width - s.len()) as nat)
    } else {
        s
    }
}

/// `s` filled with spaces on the left to a width in characters.
pub open spec fn right(s: Seq<char>, width: nat) -> Seq<char> {
    if s.len() < width {
        spaces((width - s.len()) as nat) + s
    } else {
        s
    }
}

fn gap(n: usize) -> (r: String)
    ensures
        r@ == spaces(n as nat),
{
    let mut out = String::new();
    let mut i: usize = 0;
    assert(out@ == spaces(0));
    while i < n
        invariant
            i <= n,
            out@ == spaces(i as nat),
        decreases n - i,
    {
        out.push(' ');
        assert(out@ == spaces((i + 1) as nat));
        i += 1;
    }
    out
}

pub fn left_text(s: &str, width: usize) -> (r: String)
    ensures
        r@ == left(s@, width as nat),
{
    let n: usize = text::chars(s).len();
    let mut out = s.to_string();
    if n < width {
        out.append(gap(width - n).as_str());
    }
    out
}

pub fn right_text(s: &str, width: usize) -> (r: String)
    ensures
        r@ == right(s@, width as nat),
{
    let n: usize = text::chars(s).len();
    if n < width {
        let mut out = gap(width - n);
        out.append(s);
        out
    } else {
        s.to_string()
    }
}

/// A quantity in billionths with decimal places and a unit, or a dash.
pub open spec fn measure(v: Option<u64>, places: nat, unit: Seq<char>) -> Seq<char> {
    match v {
        Some(x) => number::decimal_text(x as nat, 1_000_000_000, places) + unit,
        None => "—"@,
    }
}

pub fn measure_text(v: Option<u64>, places: u64, unit: &str) -> (r: String)
    requires
        places <= 3,
    ensures
        r@ == measure(v, places as nat, unit@),
{
    match v {
        Some(x) => {
            let mut out = number::decimal_of(x, 1_000_000_000, places);
            out.append(unit);
            out
        },
        None => "—".to_string(),
    }
}

/// A reading with decimal places and a unit, or another text.
pub open spec fn reading_or(
    v: Option<Reading>,
    places: nat,
    unit: Seq<char>,
    none: Seq<char>,
) -> Seq<char> {
    match v {
        Some(x) => signed(x.billionths as int, 1_000_000_000, places) + unit,
        None => none,
    }
}

pub fn reading_text(v: Option<Reading>, places: u64, unit: &str, none: &str) -> (r: String)
    requires
        places <= 3,
    ensures
        r@ == reading_or(v, places as nat, unit@, none@),
{
    match v {
        Some(x) => {
            let mut out = signed_text(x.billionths, 1_000_000_000, places);
            out.append(unit);
            out
        },
        None => none.to_string(),
    }
}

/// The text behind an option, or another text.
pub open spec fn or_text(v: Option<Seq<char>>, none: Seq<char>) -> Seq<char> {
    match v {
        Some(s) => s,
        None => none,
    }
}

pub fn or<'a>(v: &'a Option<String>, none: &'a str) -> (r: &'a str)
    ensures
        r@ == or_text(text::opt_text(*v), none@),
{
    match v {
        Some(s) => s.as_str(),
        None => none,
    }
}

// ---------------------------------------------------------------------------
// Sparklines
// ---------------------------------------------------------------------------

/// How many readings a session's history holds.
pub const SPARK_CAPACITY: usize = 60;

/// A history after one more reading: past the capacity the oldest one leaves.
pub open spec fn pushed(h: Seq<Option<u64>>, v: Option<u64>) -> Seq<Option<u64>> {
    let all = h.push(v);
    if all.len() > SPARK_CAPACITY {
        all.skip(1)
    } else {
        all
    }
}

pub fn push_sample(buf: &mut VecDeque<Option<u64>>, value: Option<u64>)
    ensures
        final(buf)@ == pushed(old(buf)@, value),
{
    buf.push_back(value);
    if buf.len() > SPARK_CAPACITY {
        let _ = buf.pop_front();
    }
    assert(buf@ == pushed(old(buf)@, value));
}

/// A history never grows past its capacity, and its last reading is the newest.
pub proof fn law_history_is_bounded(h: Seq<Option<u64>>, v: Option<u64>)
    requires
        h.len() <= SPARK_CAPACITY,
    ensures
        pushed(h, v).len() <= SPARK_CAPACITY,
        pushed(h, v).last() == v,
        h.len() < SPARK_CAPACITY ==> pushed(h, v) == h.push(v),
        h.len() == SPARK_CAPACITY ==> pushed(h, v) == h.skip(1).push(v),
{
    assert(h.push(v).skip(1) =~= h.skip(1).push(v) || h.len() == 0);
}

/// The readings that are present.
pub open spec fn present(h: Seq<Option<u64>>) -> Seq<u64>
    decreases h.len(),
{
    if h.len() == 0 {
        Seq::empty()
    } else {
        match h.last() {
            Some(x) => present(h.drop_last()).push(x),
            None => present(h.drop_last()),
        }
    }
}

/// The bar of a level from 0 to 7.
pub open spec fn bar(level: nat) -> char {
    if level == 0 {
        '▁'
    } else if level == 1 {
        '▂'
    } else if level == 2 {
        '▃'
    } else if level == 3 {
        '▄'
    } else if level == 4 {
        '▅'
    } else if level == 5 {
        '▆'
    } else if level == 6 {
        '▇'
    } else {
        '█'
    }
}

/// The level of a reading between the least and the greatest: in steps of a
/// seventh, to the nearest. A flat history is at the lowest level.
pub open spec fn spark_level(x: u64, lo: u64, hi: u64) -> nat {
    if hi <= lo {
        0
    } else {
        number::round_half_up(((x - lo) * 7) as nat, (hi - lo) as nat)
    }
}

/// A history as bars; a missing reading is a dot.
pub open spec fn bars(h: Seq<Option<u64>>, lo: u64, hi: u64) -> Seq<char> {
    h.map_values(
        |v: Option<u64>|
            match v {
                Some(x) => bar(spark_level(x, lo, hi)),
                None => '·',
            },
    )
}

/// The level of the least reading is the lowest, that of the greatest the
/// highest unless all are equal, and a greater reading is never lower.
pub proof fn law_sparkline_levels(x: u64, y: u64, lo: u64, hi: u64)
    requires
        lo <= x <= y <= hi,
    ensures
        spark_level(lo, lo, hi) == 0,
        lo < hi ==> spark_level(hi, lo, hi) == 7,
        spark_level(x, lo, hi) <= spark_level(y, lo, hi) <= 7,
{
    if lo < hi {
        let b = (hi - lo) as int;
        let p = (x - lo) as int;
        let q = (y - lo) as int;
        lemma_round(p * 7, q * 7, b, 7);
        lemma_round(0, 0, b, 7);
        assert(b * 7 / b == 7 && b * 7 % b == 0) by (nonlinear_arith)
            requires
                b > 0,
        ;
        assert(0int / b == 0 && 0int % b == 0) by (nonlinear_arith)
            requires
                b > 0,
        ;
    }
}

/// A bar shows how far a reading lies above the least one: readings that are
/// all moved by the same amount give the same bars.
pub proof fn law_sparkline_shows_differences(x: u64, lo: u64, hi: u64, x2: u64, lo2: u64, hi2: u64)
    requires
        lo <= x <= hi,
        x2 - x == lo2 - lo,
        hi2 - hi == lo2 - lo,
    ensures
        spark_level(x, lo, hi) == spark_level(x2, lo2, hi2),
{
}

proof fn lemma_round(p: int, q: int, b: int, top: int)
    requires
        0 <= p <= q <= b * top,
        b > 0,
        top >= 0,
    ensures
        number::round_half_up(p as nat, b as nat) <= number::round_half_up(q as nat, b as nat)
            <= top,
{
    let (pq, pr) = (p / b, p % b);
    let (qq, qr) = (q / b, q % b);
    vstd::arithmetic::div_mod::lemma_fundamental_div_mod(p, b);
    vstd::arithmetic::div_mod::lemma_fundamental_div_mod(q, b);
    assert(0 <= pr < b && 0 <= qr < b);
    assert(pq <= qq && qq <= top && (pq == qq ==> pr <= qr) && (qq == top ==> qr == 0))
        by (nonlinear_arith)
        requires
            p == b * pq + pr,
            q == b * qq + qr,
            0 <= pr < b,
            0 <= qr < b,
            0 <= p <= q <= b * top,
            b > 0,
    ;
}

fn bar_of(level: u128) -> (r: char)
    ensures
        r == bar(level as nat),
{
    if level == 0 {
        '▁'
    } else if level == 1 {
        '▂'
    } else if level == 2 {
        '▃'
    } else if level == 3 {
        '▄'
    } else if level == 4 {
        '▅'
    } else if level == 5 {
        '▆'
    } else if level == 6 {
        '▇'
    } else {
        '█'
    }
}

/// A history as bars between its least and its greatest reading.
pub open spec fn spark(h: Seq<Option<u64>>) -> Seq<char> {
    bars(
        h,
        crate::stats::minimum(present(h)).unwrap_or(0),
        crate::stats::maximum(present(h)).unwrap_or(0),
    )
}

proof fn lemma_present(h: Seq<Option<u64>>, i: int)
    requires
        0 <= i < h.len(),
        h[i] is Some,
    ensures
        present(h).contains(h[i]->0),
    decreases h.len(),
{
    let p = present(h);
    if i == h.len() - 1 {
        assert(p[p.len() - 1] == h[i]->0);
    } else {
        let d = h.drop_last();
        assert(d[i] == h[i]);
        lemma_present(d, i);
        let q = present(d);
        let k = choose|k: int| 0 <= k < q.len() && q[k] == h[i]->0;
        assert(p[k] == h[i]->0);
    }
}

/// Draws a history as bars between its least and its greatest reading.
pub fn sparkline(values: &VecDeque<Option<u64>>) -> (r: String)
    ensures
        r@ == spark(values@),
{
    let mut shown: Vec<u64> = Vec::new();
    let mut i: usize = 0;
    while i < values.len()
        invariant
            i <= values@.len(),
            shown@ == present(values@.take(i as int)),
        decreases values@.len() - i,
    {
        assert(values@.take(i + 1).drop_last() == values@.take(i as int));
        if let Some(x) = values[i] {
            shown.push(x);
        }
        i += 1;
    }
    assert(values@.take(values@.len() as int) == values@);
    let lo: u64 = match crate::stats::minimum_of(&shown) {
        Some(x) => x,
        None => 0,
    };
    let hi: u64 = match crate::stats::maximum_of(&shown) {
        Some(x) => x,
        None => 0,
    };
    let mut out = String::new();
    let mut k: usize = 0;
    assert(out@ == bars(values@, lo, hi).take(0));
    while k < values.len()
        invariant
            k <= values@.len(),
            lo == crate::stats::minimum(present(values@)).unwrap_or(0),
            hi == crate::stats::maximum(present(values@)).unwrap_or(0),
            out@ == bars(values@, lo, hi).take(k as int),
        decreases values@.len() - k,
    {
        let c: char = match values[k] {
            Some(x) => {
                proof {
                    lemma_present(values@, k as int);
                    let p = present(values@);
                    crate::stats::law_minimum_is_least(p);
                    crate::stats::law_maximum_is_greatest(p);
                    let j = choose|j: int| 0 <= j < p.len() && p[j] == x;
                    assert(lo <= p[j] <= hi);
                }
                if hi <= lo {
                    bar_of(0)
                } else {
                    bar_of(number::nearest_up((x - lo) as u128 * 7, (hi - lo) as u128))
                }
            },
            None => '·',
        };
        out.push(c);
        assert(out@ == bars(values@, lo, hi).take(k + 1));
        k += 1;
    }
    assert(out@ == bars(values@, lo, hi));
    out
}

/// Compares the route's hash with the last one seen, which it replaces. The
/// first one is no change.
pub fn route_changed(prev_hash: &mut Option<String>, current_hash: &str) -> (r: bool)
    ensures
        r == is_change(text::opt_text(*old(prev_hash)), current_hash@),
        text::opt_text(*final(prev_hash)) == Some(current_hash@),
{
    let changed = match prev_hash {
        Some(p) => !text::same_str(p.as_str(), current_hash),
        None => false,
    };
    *prev_hash = Some(current_hash.to_string());
    changed
}

/// The time `secs` seconds before `now`.
pub open spec fn start_of(now: i64, secs: i64) -> i64 {
    now.wrapping_sub(secs.wrapping_mul(1000))
}

/// The time from which an export goes: all times where no window is given.
pub open spec fn export_from(now: i64, secs: i64) -> i64 {
    if secs > 0 {
        start_of(now, secs)
    } else {
        0
    }
}

/// The time half an hour before `now`.
pub open spec fn half_hour_before(now: i64) -> i64 {
    (now - 1_800_000) as i64
}

/// Whether a hash differs from the one seen before it.
pub open spec fn is_change(seen: Option<Seq<char>>, hash: Seq<char>) -> bool {
    seen is Some && seen != Some(hash)
}

/// A window begins so many seconds before now, each a thousand milliseconds.
pub proof fn law_windows_reach_back(now: i64, secs: i64)
    requires
        i64::MIN <= secs * 1000 <= i64::MAX,
        i64::MIN <= now - secs * 1000 <= i64::MAX,
    ensures
        start_of(now, secs) + secs * 1000 == now,
        secs > 0 ==> export_from(now, secs) + secs * 1000 == now,
        secs <= 0 ==> export_from(now, secs) == 0,
        now >= i64::MIN + 1_800_000 ==> half_hour_before(now) + 30 * 60 * 1000 == now,
{
}

/// The first hash is no change, and neither is the same one again; any other is.
pub proof fn law_first_route_is_no_change(a: Seq<char>, b: Seq<char>)
    ensures
        !is_change(None, a),
        !is_change(Some(a), a),
        a != b ==> is_change(Some(a), b),
{
}

/// A window is given in hours, days or seconds. What cannot be read is a day.
pub proof fn law_windows_are_read(body: Seq<char>, n: i64)
    requires
        text::trim(body.push('h')) == body.push('h'),
        text::trim(body.push('d')) == body.push('d'),
        text::trim(body.push('x')) == body.push('x'),
        i64::MIN <= n * 86_400 <= i64::MAX,
    ensures
        number::parse_i64(body) == Some(n) ==> window(body.push('h')) == n * 60 * 60,
        number::parse_i64(body) == Some(n) ==> window(body.push('d')) == n * 24 * 60 * 60,
        number::parse_i64(body) is None ==> window(body.push('h')) == 24 * 60 * 60,
        number::parse_i64(body) is None ==> window(body.push('d')) == 24 * 60 * 60,
        body.len() > 0 ==> window(body.push('x')) == 24 * 60 * 60,
{
    assert(body.push('h').drop_last() == body);
    assert(body.push('d').drop_last() == body);
    if body.len() > 0 {
        number::law_other_texts_are_no_numbers(body.push('x'), body.len() as int);
    }
}

/// Seconds without a unit are read as they are.
pub proof fn law_seconds_are_read(n: i64)
    ensures
        window(number::dec_int(n as int)) == n,
{
    let d = number::dec_int(n as int);
    lemma_number_is_trimmed(n);
    number::law_integers_round_trip(n);
    number::lemma_decimal_of_dec(size(n as int));
    let w = number::dec(size(n as int));
    assert(number::is_digit(w[w.len() - 1]));
    assert(d.last() == w.last());
}

/// A window of whole days is told in days, another of whole hours in hours and any other in
/// seconds.
pub proof fn law_windows_are_told_in_their_unit(n: int)
    ensures
        window_text(n * 86_400) == number::dec_int(n) + "d"@,
        n % 24 != 0 ==> window_text(n * 3600) == number::dec_int(n) + "h"@,
        n % 3600 != 0 ==> window_text(n) == number::dec_int(n) + "s"@,
{
}

/// A number below zero is told with a minus before the digits of its size.
pub proof fn law_signs_are_told(n: nat, by: nat, places: nat)
    requires
        n > 0,
    ensures
        signed(-(n as int), by, places) == "-"@ + signed(n as int, by, places),
        signed_quotient(-(n as int), by, places) == "-"@ + signed_quotient(n as int, by, places),
        signed(n as int, by, places) == number::decimal_text(n, by, places),
        signed_quotient(n as int, by, places) == number::quotient_text(n, by, places),
{
    reveal_strlit("");
    assert(""@ + number::decimal_text(n, by, places) == number::decimal_text(n, by, places));
    assert(""@ + number::quotient_text(n, by, places) == number::quotient_text(n, by, places));
    assert(size(-(n as int)) == n);
}

/// A duration below a minute is told in seconds, one below an hour in minutes and any other
/// in hours.
pub proof fn law_durations_are_told_in_their_unit(ms: int)
    ensures
        ms < 60 * 1000 ==> duration(ms).last() == 's',
        60 * 1000 <= ms < 60 * 60 * 1000 ==> duration(ms).last() == 'm',
        60 * 60 * 1000 <= ms ==> duration(ms).last() == 'h',
{
    reveal_strlit("s");
    reveal_strlit("m");
    reveal_strlit("h");
}

/// A time is told in whole seconds, cut towards zero.
pub proof fn law_times_are_told_in_seconds(ms: int)
    ensures
        stamp(ms) == "@"@ + number::dec_int(cut(ms, 1000)),
        ms >= 0 ==> cut(ms, 1000) * 1000 <= ms < (cut(ms, 1000) + 1) * 1000,
        ms < 0 ==> (cut(ms, 1000) - 1) * 1000 < ms <= cut(ms, 1000) * 1000,
{
}

/// What is known is told as yes or no, what is not as a dash.
pub proof fn law_three_answers()
    ensures
        tri_text(Some(true)) == "yes"@,
        tri_text(Some(false)) == "no"@,
        tri_text(None) == "—"@,
{
}

/// A text is filled up to the width with blanks, behind it or before it. A longer one stays.
pub proof fn law_columns_are_filled(s: Seq<char>, width: nat, i: int)
    ensures
        s.len() <= width ==> left(s, width).len() == width && right(s, width).len() == width,
        s.len() >= width ==> left(s, width) == s && right(s, width) == s,
        s.is_prefix_of(left(s, width)),
        s.is_suffix_of(right(s, width)),
        s.len() <= i < width ==> left(s, width)[i] == ' ',
        0 <= i < width - s.len() ==> right(s, width)[i] == ' ',
{
    if s.len() < width {
        assert(left(s, width).subrange(0, s.len() as int) == s);
        assert(right(s, width).subrange(width - s.len(), width as int) == s);
    } else {
        assert(s.subrange(0, s.len() as int) == s);
    }
}

/// What is not known is told by a dash or the given text; a figure with its unit behind it.
pub proof fn law_unknown_figures_are_told(
    x: u64,
    r: Reading,
    t: Seq<char>,
    places: nat,
    unit: Seq<char>,
    none: Seq<char>,
)
    ensures
        measure(None, places, unit) == "—"@,
        measure(Some(x), places, unit) == number::decimal_text(x as nat, 1_000_000_000, places)
            + unit,
        reading_or(None, places, unit, none) == none,
        reading_or(Some(r), places, unit, none) == signed(
            r.billionths as int,
            1_000_000_000,
            places,
        ) + unit,
        or_text(None, none) == none,
        or_text(Some(t), none) == t,
{
}

/// The history holds the last 60 values.
pub proof fn law_history_holds_sixty(h: Seq<Option<u64>>, v: Option<u64>)
    ensures
        h.len() < 60 ==> pushed(h, v) == h.push(v),
        h.len() == 60 ==> pushed(h, v).len() == 60 && pushed(h, v).last() == v && forall|i: int|
            0 <= i < 59 ==> #[trigger] pushed(h, v)[i] == h[i + 1],
{
}

/// Of a history the known values are taken, in their order.
pub proof fn law_known_values_are_taken(a: Seq<Option<u64>>, b: Seq<Option<u64>>, row: Option<u64>)
    ensures
        present(a + b) == present(a) + present(b),
        present(seq![row]) == (match row {
            Some(x) => seq![x],
            None => Seq::empty(),
        }),
        present(Seq::<Option<u64>>::empty()) == Seq::<u64>::empty(),
    decreases b.len(),
{
    reveal_with_fuel(present, 2);
    assert(seq![row].drop_last() == Seq::<Option<u64>>::empty());
    if b.len() == 0 {
        assert(a + b == a);
    } else {
        law_known_values_are_taken(a, b.drop_last(), row);
        assert((a + b).drop_last() == a + b.drop_last());
        assert(present(a + b) == present(a) + present(b));
    }
}


/// A sparkline has a sign for each value: a dot for one that is not known, the lowest bar
/// for the least and the highest for the greatest. Between them the bar is the nearest of
/// the eight.
pub proof fn law_sparklines_scale_to_the_extremes(h: Seq<Option<u64>>, i: int)
    requires
        0 <= i < h.len(),
    ensures
        spark(h).len() == h.len(),
        h[i] is None ==> spark(h)[i] == '·',
        h[i] is Some ==> ({
            let lo = crate::stats::minimum(present(h))->0;
            let hi = crate::stats::maximum(present(h))->0;
            let x = h[i]->0;
            let level = spark_level(x, lo, hi) as int;
            &&& lo <= x <= hi
            &&& spark(h)[i] == seq!['▁', '▂', '▃', '▄', '▅', '▆', '▇', '█'][level]
            &&& 0 <= level <= 7
            &&& x == lo ==> spark(h)[i] == '▁'
            &&& lo < x && x == hi ==> spark(h)[i] == '█'
            &&& lo < hi ==> 2 * (level * (hi - lo) - 7 * (x - lo)) <= hi - lo && 2 * (7 * (x - lo)
                - level * (hi - lo)) < hi - lo
        }),
{
    if h[i] is Some {
        lemma_present(h, i);
        let p = present(h);
        let x = h[i]->0;
        let k = choose|k: int| 0 <= k < p.len() && p[k] == x;
        crate::stats::law_extremes_bound_every_value(p, k);
        let lo = crate::stats::minimum(p)->0;
        let hi = crate::stats::maximum(p)->0;
        law_sparkline_levels(x, hi, lo, hi);
        law_sparkline_levels(lo, x, lo, hi);
        if lo < hi {
            number::law_rounding_is_to_the_nearest(((x - lo) * 7) as nat, (hi - lo) as nat);
        }
    }
}

} // verus!
