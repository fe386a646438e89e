//! Reading the output of `traceroute` and `tracert`, and comparing routes.

use std::collections::hash_map::DefaultHasher;
use std::hash::Hasher;

use vstd::prelude::*;
use vstd::std_specs::hash::DefaultHasherAdditionalSpecFns;

use crate::addr;
use crate::number;
use crate::number::Reading;
use crate::text;

verus! {

/// One hop. Address and time (milliseconds) are absent for a hop that did not
/// respond.
#[derive(Clone, Debug, PartialEq, Eq)]
pub struct Hop {
    pub hop_no: u32,
    pub ip: Option<String>,
    pub rtt_ms: Option<Reading>,
}

impl View for Hop {
    type V = (u32, Option<Seq<char>>, Option<Reading>);

    open spec fn view(&self) -> (u32, Option<Seq<char>>, Option<Reading>) {
        (self.hop_no, text::opt_text(self.ip), self.rtt_ms)
    }
}

pub open spec fn hop_views(v: Seq<Hop>) -> Seq<(u32, Option<Seq<char>>, Option<Reading>)> {
    v.map_values(|h: Hop| h@)
}

/// A completed traceroute.
#[derive(Clone, Debug, PartialEq, Eq)]
pub struct TraceResult {
    pub target: String,
    pub hops: Vec<Hop>,
    /// Hash of the ordered hop addresses, for telling routes apart.
    pub route_hash: String,
}

// ---------------------------------------------------------------------------
// Addresses
// ---------------------------------------------------------------------------

pub open spec fn is_bracket(c: char) -> bool {
    c == '(' || c == ')' || c == '[' || c == ']'
}

pub open spec fn open_left(s: Seq<char>) -> Seq<char>
    decreases s.len(),
{
    if s.len() > 0 && is_bracket(s[0]) {
        open_left(s.skip(1))
    } else {
        s
    }
}

pub open spec fn open_right(s: Seq<char>) -> Seq<char>
    decreases s.len(),
{
    if s.len() > 0 && is_bracket(s.last()) {
        open_right(s.drop_last())
    } else {
        s
    }
}

/// `s` without the brackets at its ends.
pub open spec fn unbracketed(s: Seq<char>) -> Seq<char> {
    open_right(open_left(s))
}

fn bracket(c: char) -> (r: bool)
    ensures
        r == is_bracket(c),
{
    c == '(' || c == ')' || c == '[' || c == ']'
}

fn unbracket<'a>(s: &'a [char]) -> (r: &'a [char])
    ensures
        r@ == unbracketed(s@),
{
    let mut i: usize = 0;
    assert(s@.skip(0) == s@);
    while i < s.len() && bracket(s[i])
        invariant
            i <= s.len(),
            open_left(s@) == open_left(s@.skip(i as int)),
        decreases s.len() - i,
    {
        assert(s@.skip(i as int).skip(1) == s@.skip(i + 1));
        i += 1;
    }
    let t = &s[i..s.len()];
    assert(t@ == s@.skip(i as int));
    let mut n: usize = t.len();
    assert(t@.take(n as int) == t@);
    while n > 0 && bracket(t[n - 1])
        invariant
            n <= t.len(),
            open_right(t@) == open_right(t@.take(n as int)),
        decreases n,
    {
        assert(t@.take(n as int).drop_last() == t@.take(n - 1));
        n -= 1;
    }
    let r = &t[0..n];
    assert(r@ == t@.take(n as int));
    r
}

/// The first token that is an IP address, once brackets are dropped.
pub open spec fn first_ip(toks: Seq<Seq<char>>) -> Option<Seq<char>>
    decreases toks.len(),
{
    if toks.len() == 0 {
        None
    } else if addr::is_ip(unbracketed(toks[0])) {
        Some(unbracketed(toks[0]))
    } else {
        first_ip(toks.skip(1))
    }
}

fn read_first_ip(toks: &Vec<&[char]>, from: usize) -> (r: Option<String>)
    requires
        from <= toks@.len(),
    ensures
        text::opt_text(r) == first_ip(text::views(toks@).skip(from as int)),
{
    let ghost v = text::views(toks@);
    let mut i: usize = from;
    while i < toks.len()
        invariant
            from <= i <= toks.len(),
            v == text::views(toks@),
            first_ip(v.skip(from as int)) == first_ip(v.skip(i as int)),
        decreases toks.len() - i,
    {
        assert(v.skip(i as int)[0] == toks@[i as int]@);
        assert(v.skip(i as int).skip(1) == v.skip(i + 1));
        let t = unbracket(toks[i]);
        if addr::ip(t) {
            return Some(text::string(t));
        }
        i += 1;
    }
    None
}

// ---------------------------------------------------------------------------
// Times
// ---------------------------------------------------------------------------

/// A time column. `tracert` prints `<1` for under a millisecond.
pub open spec fn time_column(s: Seq<char>, windows: bool) -> Option<Reading> {
    if windows {
        number::reading(text::trim_start_str(s, "<"@))
    } else {
        number::reading(s)
    }
}

/// The first column followed by `ms` that is a number.
pub open spec fn first_rtt(toks: Seq<Seq<char>>, windows: bool) -> Option<Reading>
    decreases toks.len(),
{
    if toks.len() < 2 {
        None
    } else if toks[1] == "ms"@ && time_column(toks[0], windows) is Some {
        time_column(toks[0], windows)
    } else {
        first_rtt(toks.skip(1), windows)
    }
}

fn read_first_rtt(toks: &Vec<&[char]>, from: usize, windows: bool) -> (r: Option<Reading>)
    requires
        from <= toks@.len(),
    ensures
        r == first_rtt(text::views(toks@).skip(from as int), windows),
{
    let ghost v = text::views(toks@);
    let mut i: usize = from;
    while i < toks.len() && toks.len() - i >= 2
        invariant
            from <= i <= toks.len(),
            v == text::views(toks@),
            first_rtt(v.skip(from as int), windows) == first_rtt(v.skip(i as int), windows),
        decreases toks.len() - i,
    {
        assert(v.skip(i as int)[0] == toks@[i as int]@);
        assert(v.skip(i as int)[1] == toks@[i + 1]@);
        assert(v.skip(i as int).skip(1) == v.skip(i + 1));
        if text::same(toks[i + 1], "ms") {
            let t: &[char] = if windows {
                proof {
                    reveal_strlit("<");
                    assert("<"@.len() == 1);
                }
                text::strip_start_all(toks[i], "<")
            } else {
                toks[i]
            };
            let n = number::read_decimal(t);
            if n.is_some() {
                return n;
            }
        }
        i += 1;
    }
    None
}

// ---------------------------------------------------------------------------
// Hops
// ---------------------------------------------------------------------------

/// The hop of one line: a hop number, then addresses and times in any order.
pub open spec fn hop_line(line: Seq<char>, windows: bool) -> Option<
    (u32, Option<Seq<char>>, Option<Reading>),
> {
    let toks = text::words(line);
    if toks.len() == 0 {
        None
    } else {
        match number::parse_u32(toks[0]) {
            Some(n) => Some((n, first_ip(toks.skip(1)), first_rtt(toks.skip(1), windows))),
            None => None,
        }
    }
}

/// The hops of the given lines, in order.
pub open spec fn hop_lines(lines: Seq<Seq<char>>, windows: bool) -> Seq<
    (u32, Option<Seq<char>>, Option<Reading>),
>
    decreases lines.len(),
{
    if lines.len() == 0 {
        Seq::empty()
    } else {
        let before = hop_lines(lines.drop_last(), windows);
        match hop_line(lines.last(), windows) {
            Some(h) => before.push(h),
            None => before,
        }
    }
}

fn read_hop(line: &[char], windows: bool) -> (r: Option<Hop>)
    ensures
        match r {
            Some(h) => hop_line(line@, windows) == Some(h@),
            None => hop_line(line@, windows) is None,
        },
{
    let toks = text::split_words(line);
    let ghost v = text::words(line@);
    assert(toks@.len() == v.len());
    if toks.len() == 0 {
        return None;
    }
    assert(v[0] == toks@[0]@);
    match number::read_u32(toks[0]) {
        Some(hop_no) => Some(
            Hop {
                hop_no,
                ip: read_first_ip(&toks, 1),
                rtt_ms: read_first_rtt(&toks, 1, windows),
            },
        ),
        None => None,
    }
}

fn read_hops(text: &str, windows: bool) -> (r: Vec<Hop>)
    ensures
        hop_views(r@) == hop_lines(text::lines(text@), windows),
{
    let all = text::chars(text);
    let lines = text::split_lines(&all);
    let ghost v = text::lines(text@);
    let mut out: Vec<Hop> = Vec::new();
    let mut i: usize = 0;
    assert(hop_views(out@) == hop_lines(v.take(0), windows));
    while i < lines.len()
        invariant
            i <= lines.len(),
            text::views(lines@) == v,
            hop_views(out@) == hop_lines(v.take(i as int), windows),
        decreases lines.len() - i,
    {
        assert(v.take(i + 1).drop_last() == v.take(i as int));
        assert(v.take(i + 1).last() == lines@[i as int]@);
        let ghost before = hop_views(out@);
        if let Some(h) = read_hop(lines[i], windows) {
            out.push(h);
            assert(hop_views(out@) == before.push(h@));
        }
        i += 1;
    }
    assert(v.take(lines@.len() as int) == v);
    out
}

/// Reads GNU or BSD `traceroute -n` output.
pub fn parse_traceroute(text: &str) -> (r: Vec<Hop>)
    ensures
        hop_views(r@) == hop_lines(text::lines(text@), false),
{
    read_hops(text, false)
}

/// Reads Windows `tracert -d` output.
pub fn parse_tracert(text: &str) -> (r: Vec<Hop>)
    ensures
        hop_views(r@) == hop_lines(text::lines(text@), true),
{
    read_hops(text, true)
}

// ---------------------------------------------------------------------------
// Routes
// ---------------------------------------------------------------------------

/// The text that stands for a hop in a route: its address, or `*`.
pub open spec fn hop_label(ip: Option<Seq<char>>) -> Seq<char> {
    match ip {
        Some(s) => s,
        None => "*"@,
    }
}

/// The ordered hop labels of a route.
pub open spec fn route(hops: Seq<Hop>) -> Seq<Seq<char>> {
    hops.map_values(|h: Hop| hop_label(text::opt_text(h.ip)))
}

/// What is fed to the hasher: each label's bytes, then the byte `0xff`, which
/// no label holds.
pub open spec fn hash_input(labels: Seq<Seq<char>>) -> Seq<Seq<u8>>
    decreases labels.len(),
{
    if labels.len() == 0 {
        Seq::empty()
    } else {
        hash_input(labels.drop_last()).push(vstd::utf8::encode_utf8(labels.last())).push(
            seq![0xffu8],
        )
    }
}

/// The hash of a route, as sixteen hexadecimal digits.
pub open spec fn route_hash(labels: Seq<Seq<char>>) -> Seq<char> {
    number::hex(DefaultHasher::spec_finish(hash_input(labels)) as nat, 16)
}

/// Hashes the ordered hop addresses, so that a changed path is noticed.
pub fn hash_route(hops: &[Hop]) -> (r: String)
    ensures
        r@ == route_hash(route(hops@)),
{
    let mut h = DefaultHasher::new();
    let ghost v = route(hops@);
    let end: [u8; 1] = [0xff];
    let mut i: usize = 0;
    while i < hops.len()
        invariant
            i <= hops.len(),
            v == route(hops@),
            end@ == seq![0xffu8],
            h@ == hash_input(v.take(i as int)),
        decreases hops.len() - i,
    {
        assert(v.take(i + 1).drop_last() == v.take(i as int));
        assert(v.take(i + 1).last() == v[i as int]);
        match &hops[i].ip {
            Some(ip) => {
                h.write(ip.as_str().as_bytes());
            },
            None => {
                h.write("*".as_bytes());
            },
        }
        h.write(&end);
        i += 1;
    }
    assert(v.take(hops@.len() as int) == v);
    let mut out = String::new();
    number::push_hex(&mut out, h.finish(), 16);
    assert(out@ == route_hash(v));
    out
}

/// The route's hash depends on the ordered hop addresses alone: hop numbers and
/// times do not matter.
pub proof fn law_route_hash_depends_on_addresses(a: Seq<Hop>, b: Seq<Hop>)
    requires
        a.len() == b.len(),
        forall|i: int| 0 <= i < a.len() ==> text::opt_text(#[trigger] a[i].ip) == text::opt_text(
            b[i].ip,
        ),
    ensures
        route_hash(route(a)) == route_hash(route(b)),
{
    assert(route(a) == route(b));
}

/// A trace result from a run's output; `None` if the output holds no hop.
pub fn trace_result(target: &str, output: &str, windows: bool) -> (r: Option<TraceResult>)
    ensures
        match r {
            Some(t) => {
                &&& t.target@ == target@
                &&& hop_views(t.hops@) == hop_lines(text::lines(output@), windows)
                &&& t.hops@.len() > 0
                &&& t.route_hash@ == route_hash(route(t.hops@))
            },
            None => hop_lines(text::lines(output@), windows).len() == 0,
        },
{
    let hops = if windows { parse_tracert(output) } else { parse_traceroute(output) };
    assert(hop_views(hops@).len() == hops@.len());
    if hops.len() == 0 {
        return None;
    }
    let route_hash = hash_route(&hops);
    Some(TraceResult { target: target.to_string(), hops, route_hash })
}

/// The arguments of a traceroute: numeric, one query per hop.
pub fn traceroute_args(windows: bool, max_hops: u8, target: &str) -> (r: Vec<String>)
    ensures
        r@.map_values(|s: String| s@) == arguments(windows, max_hops, target@),
{
    let n = number::u64_text(max_hops as u64);
    let mut out: Vec<String> = Vec::new();
    if windows {
        out.push("-d".to_string());
        out.push("-h".to_string());
    } else {
        out.push("-n".to_string());
        out.push("-q".to_string());
        out.push("1".to_string());
        out.push("-m".to_string());
    }
    out.push(n);
    out.push(target.to_string());
    out
}

/// A line is a hop if and only if its first word is a number, which is that of the hop.
/// Hops are listed in the order of their lines.
pub proof fn law_lines_with_a_number_are_hops(
    a: Seq<Seq<char>>,
    b: Seq<Seq<char>>,
    line: Seq<char>,
    windows: bool,
)
    ensures
        hop_lines(a + b, windows) == hop_lines(a, windows) + hop_lines(b, windows),
        hop_lines(seq![line], windows) == ({
            let w = text::words(line);
            if w.len() > 0 && number::parse_u32(w[0]) is Some {
                seq![
                    (
                        number::parse_u32(w[0])->0,
                        first_ip(w.skip(1)),
                        first_rtt(w.skip(1), windows),
                    ),
                ]
            } else {
                Seq::empty()
            }
        }),
        hop_lines(Seq::<Seq<char>>::empty(), windows)
            == Seq::<(u32, Option<Seq<char>>, Option<Reading>)>::empty(),
    decreases b.len(),
{
    reveal_with_fuel(hop_lines, 2);
    assert(seq![line].drop_last() == Seq::<Seq<char>>::empty());
    if b.len() == 0 {
        assert(a + b == a);
    } else {
        law_lines_with_a_number_are_hops(a, b.drop_last(), line, windows);
        assert((a + b).drop_last() == a + b.drop_last());
        assert(hop_lines(a + b, windows) == hop_lines(a, windows) + hop_lines(b, windows));
    }
}


/// The address of a hop is its first word that is one, without the brackets.
pub proof fn law_first_address_is_the_hop(toks: Seq<Seq<char>>)
    ensures
        match first_ip(toks) {
            Some(a) => exists|k: int|
                {
                    &&& 0 <= k < toks.len()
                    &&& a == unbracketed(#[trigger] toks[k])
                    &&& addr::is_ip(a)
                    &&& forall|m: int|
                        0 <= m < k ==> !addr::is_ip(unbracketed(#[trigger] toks[m]))
                },
            None => forall|m: int|
                0 <= m < toks.len() ==> !addr::is_ip(unbracketed(#[trigger] toks[m])),
        },
    decreases toks.len(),
{
    if toks.len() > 0 && !addr::is_ip(unbracketed(toks[0])) {
        let r = toks.skip(1);
        law_first_address_is_the_hop(r);
        assert forall|m: int| 0 < m < toks.len() implies toks[m] == r[m - 1] by {}
        match first_ip(toks) {
            Some(a) => {
                let k = choose|k: int|
                    {
                        &&& 0 <= k < r.len()
                        &&& a == unbracketed(#[trigger] r[k])
                        &&& addr::is_ip(a)
                        &&& forall|m: int|
                            0 <= m < k ==> !addr::is_ip(unbracketed(#[trigger] r[m]))
                    };
                assert(toks[k + 1] == r[k]);
                assert forall|m: int| 0 <= m < k + 1 implies !addr::is_ip(
                    unbracketed(#[trigger] toks[m]),
                ) by {
                    if m > 0 {
                        assert(toks[m] == r[m - 1]);
                    }
                }
            },
            None => {
                assert forall|m: int| 0 <= m < toks.len() implies !addr::is_ip(
                    unbracketed(#[trigger] toks[m]),
                ) by {
                    if m > 0 {
                        assert(toks[m] == r[m - 1]);
                    }
                }
            },
        }
    }
}

/// The time of a hop is the first number that "ms" follows. Where the answer was too quick
/// to measure, the number stands behind a "<".
pub proof fn law_first_time_is_the_hop(toks: Seq<Seq<char>>, windows: bool)
    ensures
        match first_rtt(toks, windows) {
            Some(t) => exists|k: int|
                {
                    &&& 0 <= k < toks.len() - 1
                    &&& toks[k + 1] == "ms"@
                    &&& time_column(#[trigger] toks[k], windows) == Some(t)
                    &&& forall|m: int|
                        0 <= m < k ==> toks[m + 1] != "ms"@ || time_column(
                            #[trigger] toks[m],
                            windows,
                        ) is None
                },
            None => forall|m: int|
                0 <= m < toks.len() - 1 ==> toks[m + 1] != "ms"@ || time_column(
                    #[trigger] toks[m],
                    windows,
                ) is None,
        },
    decreases toks.len(),
{
    if toks.len() >= 2 && !(toks[1] == "ms"@ && time_column(toks[0], windows) is Some) {
        let r = toks.skip(1);
        law_first_time_is_the_hop(r, windows);
        match first_rtt(toks, windows) {
            Some(t) => {
                let k = choose|k: int|
                    {
                        &&& 0 <= k < r.len() - 1
                        &&& r[k + 1] == "ms"@
                        &&& time_column(#[trigger] r[k], windows) == Some(t)
                        &&& forall|m: int|
                            0 <= m < k ==> r[m + 1] != "ms"@ || time_column(
                                #[trigger] r[m],
                                windows,
                            ) is None
                    };
                assert(toks[k + 1] == r[k]);
                assert(toks[k + 2] == r[k + 1]);
                assert forall|m: int| 0 <= m < k + 1 implies toks[m + 1] != "ms"@ || time_column(
                    #[trigger] toks[m],
                    windows,
                ) is None by {
                    if m > 0 {
                        assert(toks[m] == r[m - 1]);
                        assert(toks[m + 1] == r[m]);
                    }
                }
            },
            None => {
                assert forall|m: int| 0 <= m < toks.len() - 1 implies toks[m + 1] != "ms"@
                    || time_column(#[trigger] toks[m], windows) is None by {
                    if m > 0 {
                        assert(toks[m] == r[m - 1]);
                        assert(toks[m + 1] == r[m]);
                    }
                }
            },
        }
    }
}

/// A number is read as it stands, and on Windows also behind a "<".
pub proof fn law_quick_answers_are_read(s: Seq<char>)
    ensures
        time_column(s, false) == number::reading(s),
        !text::starts(s, "<"@) ==> time_column(s, true) == number::reading(s),
        time_column("<"@ + s, true) == time_column(s, true),
{
    reveal_strlit("<");
    assert("<"@.len() == 1);
    text::law_texts_start_and_end_with_a_pattern("<"@, s);
}

/// Brackets are taken off both ends and nothing else is.
pub proof fn law_brackets_are_taken_off(s: Seq<char>, c: char)
    requires
        c == '(' || c == ')' || c == '[' || c == ']',
    ensures
        unbracketed(seq![c] + s) == unbracketed(s),
        open_right(s.push(c)) == open_right(s),
        s.len() > 0 && s[0] != '(' && s[0] != ')' && s[0] != '[' && s[0] != ']' && s.last() != '('
            && s.last() != ')' && s.last() != '[' && s.last() != ']' ==> unbracketed(s) == s,
{
    assert((seq![c] + s).skip(1) == s);
    assert(s.push(c).drop_last() == s);
}

/// A route is the addresses of its hops, with a star for a hop that did not answer.
pub proof fn law_routes_are_the_addresses(hops: Seq<Hop>, i: int)
    requires
        0 <= i < hops.len(),
    ensures
        route(hops).len() == hops.len(),
        hops[i].ip is Some ==> route(hops)[i] == hops[i].ip->0@,
        hops[i].ip is None ==> route(hops)[i] == "*"@,
{
}

/// Each address of a route is hashed, with a byte that no text holds behind it.
pub proof fn law_addresses_are_hashed_in_order(a: Seq<Seq<char>>, b: Seq<Seq<char>>, row: Seq<char>)
    ensures
        hash_input(a + b) == hash_input(a) + hash_input(b),
        hash_input(seq![row]) == (seq![vstd::utf8::encode_utf8(row), seq![0xffu8]]),
        hash_input(Seq::<Seq<char>>::empty()) == Seq::<Seq<u8>>::empty(),
    decreases b.len(),
{
    reveal_with_fuel(hash_input, 2);
    assert(seq![row].drop_last() == Seq::<Seq<char>>::empty());
    if b.len() == 0 {
        assert(a + b == a);
    } else {
        law_addresses_are_hashed_in_order(a, b.drop_last(), row);
        assert((a + b).drop_last() == a + b.drop_last());
        assert(hash_input(a + b) == hash_input(a) + hash_input(b));
    }
}

/// The arguments of a run.
pub open spec fn arguments(windows: bool, max_hops: u8, target: Seq<char>) -> Seq<Seq<char>> {
    if windows {
        seq!["-d"@, "-h"@, number::dec(max_hops as nat), target]
    } else {
        seq!["-n"@, "-q"@, "1"@, "-m"@, number::dec(max_hops as nat), target]
    }
}

/// The target comes last, the greatest number of hops behind its option, and no names are
/// looked up. Elsewhere than on Windows one query is sent for each hop.
pub proof fn law_target_comes_last(windows: bool, max_hops: u8, target: Seq<char>)
    ensures
        ({
            let a = arguments(windows, max_hops, target);
            &&& a.last() == target
            &&& a[0] == (if windows {
                "-d"@
            } else {
                "-n"@
            })
            &&& windows ==> a.subrange(1, 3) == seq!["-h"@, number::dec(max_hops as nat)]
            &&& !windows ==> a.subrange(1, 3) == seq!["-q"@, "1"@]
            &&& !windows ==> a.subrange(3, 5) == seq!["-m"@, number::dec(max_hops as nat)]
            &&& windows ==> a.len() == 4
            &&& !windows ==> a.len() == 6
        }),
{
}

/// A hop is taken by its number, its address and its time.
pub proof fn law_hops_are_taken_as_they_are(v: Seq<Hop>, i: int)
    requires
        0 <= i < v.len(),
    ensures
        hop_views(v).len() == v.len(),
        hop_views(v)[i] == (v[i].hop_no, text::opt_text(v[i].ip), v[i].rtt_ms),
{
}

} // verus!
