//! LAN devices, read from the operating system's ARP cache.

use vstd::prelude::*;

use crate::addr;
use crate::text;

verus! {

/// One ARP-cache entry: a LAN device.
#[derive(Clone, Debug, PartialEq, Eq)]
pub struct ArpEntry {
    pub ip: String,
    pub mac: String,
}

impl View for ArpEntry {
    /// IP address and MAC address.
    type V = (Seq<char>, Seq<char>);

    open spec fn view(&self) -> (Seq<char>, Seq<char>) {
        (self.ip@, self.mac@)
    }
}

pub open spec fn entries(v: Seq<ArpEntry>) -> Seq<(Seq<char>, Seq<char>)> {
    v.map_values(|e: ArpEntry| e@)
}

/// A lower-case MAC that stands for no device: all zeros, broadcast or nothing.
pub open spec fn is_placeholder(m: Seq<char>) -> bool {
    m == "00:00:00:00:00:00"@ || m == "ff:ff:ff:ff:ff:ff"@ || m.len() == 0
}

/// True for MACs that are placeholders or broadcast, not real devices.
pub fn is_bogus_mac(mac: &str) -> (r: bool)
    ensures
        r == is_placeholder(text::lowercase(mac@)),
{
    let m = text::to_lowercase(mac);
    let low = text::chars(m.as_str());
    text::same(&low, "00:00:00:00:00:00") || text::same(&low, "ff:ff:ff:ff:ff:ff") || low.len() == 0
}

// ---------------------------------------------------------------------------
// Linux
// ---------------------------------------------------------------------------

/// The device of one `/proc/net/arp` line, whose columns are address, hardware
/// type, flags, MAC, mask and interface. Incomplete entries have flags `0x0`.
pub open spec fn proc_line(line: Seq<char>, iface: Option<Seq<char>>) -> Option<
    (Seq<char>, Seq<char>),
> {
    let cols = text::words(line);
    if cols.len() < 6 || cols[2] == "0x0"@ {
        None
    } else if iface is Some && cols[5] != iface->0 {
        None
    } else if is_placeholder(text::lowercase(cols[3])) {
        None
    } else {
        Some((cols[0], text::lowercase(cols[3])))
    }
}

/// The devices of the given lines, in order.
pub open spec fn proc_lines(lines: Seq<Seq<char>>, iface: Option<Seq<char>>) -> Seq<
    (Seq<char>, Seq<char>),
>
    decreases lines.len(),
{
    if lines.len() == 0 {
        Seq::empty()
    } else {
        let before = proc_lines(lines.drop_last(), iface);
        match proc_line(lines.last(), iface) {
            Some(e) => before.push(e),
            None => before,
        }
    }
}

/// The lines after the header.
pub open spec fn body(lines: Seq<Seq<char>>) -> Seq<Seq<char>> {
    if lines.len() == 0 {
        lines
    } else {
        lines.skip(1)
    }
}

fn read_proc_line(line: &[char], iface: Option<&str>) -> (r: Option<ArpEntry>)
    ensures
        match r {
            Some(e) => proc_line(line@, text::str_view(iface)) == Some(e@),
            None => proc_line(line@, text::str_view(iface)) is None,
        },
{
    let cols = text::split_words(line);
    let ghost v = text::words(line@);
    assert(cols@.len() == v.len());
    if cols.len() < 6 {
        return None;
    }
    assert(v[0] == cols@[0]@ && v[2] == cols@[2]@ && v[3] == cols@[3]@ && v[5] == cols@[5]@);
    if text::same(cols[2], "0x0") {
        return None;
    }
    if let Some(want) = iface {
        if !text::same(cols[5], want) {
            return None;
        }
    }
    let mac = text::string(cols[3]);
    if is_bogus_mac(mac.as_str()) {
        return None;
    }
    Some(ArpEntry { ip: text::string(cols[0]), mac: text::to_lowercase(mac.as_str()) })
}

/// Reads Linux's `/proc/net/arp`. When `iface` is given, only entries on that
/// interface are kept: the table is system-wide and lists container and
/// virtual-machine bridges too.
pub fn parse_proc_net_arp(text: &str, iface: Option<&str>) -> (r: Vec<ArpEntry>)
    ensures
        entries(r@) == proc_lines(body(text::lines(text@)), text::str_view(iface)),
{
    let all = text::chars(text);
    let lines = text::split_lines(&all);
    let ghost v = text::lines(text@);
    let ghost b = body(v);
    assert(lines@.len() == v.len());
    let mut out: Vec<ArpEntry> = Vec::new();
    if lines.len() == 0 {
        assert(entries(out@) == proc_lines(b, text::str_view(iface)));
        return out;
    }
    let mut i: usize = 1;
    assert(entries(out@) == proc_lines(b.take(0), text::str_view(iface)));
    while i < lines.len()
        invariant
            1 <= i <= lines.len(),
            text::views(lines@) == v,
            b == v.skip(1),
            entries(out@) == proc_lines(b.take(i - 1), text::str_view(iface)),
        decreases lines.len() - i,
    {
        assert(b.take(i as int).drop_last() == b.take(i - 1));
        assert(b.take(i as int).last() == lines@[i as int]@);
        let ghost before = entries(out@);
        if let Some(e) = read_proc_line(lines[i], iface) {
            out.push(e);
            assert(entries(out@) == before.push(e@));
        }
        i += 1;
    }
    assert(b.take(lines@.len() - 1) == b);
    out
}

// ---------------------------------------------------------------------------
// Windows
// ---------------------------------------------------------------------------

/// The device of one `arp -a` line: an IPv4 address, then a MAC with `-`.
pub open spec fn arp_line(line: Seq<char>) -> Option<(Seq<char>, Seq<char>)> {
    let cols = text::words(line);
    if cols.len() < 2 || addr::ipv4(cols[0]) is None {
        None
    } else {
        let mac = text::lowercase(text::replace_char(cols[1], '-', ':'));
        if is_placeholder(text::lowercase(mac)) || !mac.contains(':') {
            None
        } else {
            Some((cols[0], mac))
        }
    }
}

pub open spec fn arp_lines(lines: Seq<Seq<char>>) -> Seq<(Seq<char>, Seq<char>)>
    decreases lines.len(),
{
    if lines.len() == 0 {
        Seq::empty()
    } else {
        let before = arp_lines(lines.drop_last());
        match arp_line(lines.last()) {
            Some(e) => before.push(e),
            None => before,
        }
    }
}

fn read_arp_line(line: &[char]) -> (r: Option<ArpEntry>)
    ensures
        match r {
            Some(e) => arp_line(line@) == Some(e@),
            None => arp_line(line@) is None,
        },
{
    let cols = text::split_words(line);
    let ghost v = text::words(line@);
    assert(cols@.len() == v.len());
    if cols.len() < 2 {
        return None;
    }
    assert(v[0] == cols@[0]@ && v[1] == cols@[1]@);
    if addr::read_ipv4(cols[0]).is_none() {
        return None;
    }
    let mac = text::lowered(&text::replaced(cols[1], '-', ':'));
    if is_bogus_mac(mac.as_str()) || !text::has_char(&text::chars(mac.as_str()), ':') {
        return None;
    }
    Some(ArpEntry { ip: text::string(cols[0]), mac })
}

/// Reads Windows' `arp -a` output.
pub fn parse_arp_a(text: &str) -> (r: Vec<ArpEntry>)
    ensures
        entries(r@) == arp_lines(text::lines(text@)),
{
    let all = text::chars(text);
    let lines = text::split_lines(&all);
    let ghost v = text::lines(text@);
    let mut out: Vec<ArpEntry> = Vec::new();
    let mut i: usize = 0;
    assert(entries(out@) == arp_lines(v.take(0)));
    while i < lines.len()
        invariant
            i <= lines.len(),
            text::views(lines@) == v,
            entries(out@) == arp_lines(v.take(i as int)),
        decreases lines.len() - i,
    {
        assert(v.take(i + 1).drop_last() == v.take(i as int));
        assert(v.take(i + 1).last() == lines@[i as int]@);
        let ghost before = entries(out@);
        if let Some(e) = read_arp_line(lines[i]) {
            out.push(e);
            assert(entries(out@) == before.push(e@));
        }
        i += 1;
    }
    assert(v.take(lines@.len() as int) == v);
    out
}

/// No placeholder is ever listed as a device, and with an interface given every
/// listed device comes from a complete line of that interface.
pub proof fn law_listed_devices_are_real(lines: Seq<Seq<char>>, iface: Option<Seq<char>>, k: int)
    requires
        0 <= k < proc_lines(lines, iface).len(),
    ensures
        exists|j: int|
            0 <= j < lines.len() && #[trigger] proc_line(lines[j], iface) == Some(
                proc_lines(lines, iface)[k],
            ) && text::words(lines[j])[2] != "0x0"@ && (iface is Some ==> text::words(lines[j])[5]
                == iface->0),
        !is_placeholder(proc_lines(lines, iface)[k].1),
    decreases lines.len(),
{
    let before = proc_lines(lines.drop_last(), iface);
    if k < before.len() {
        law_listed_devices_are_real(lines.drop_last(), iface, k);
        let j = choose|j: int|
            0 <= j < lines.drop_last().len() && #[trigger] proc_line(lines.drop_last()[j], iface)
                == Some(before[k]);
        assert(proc_line(lines[j], iface) == Some(proc_lines(lines, iface)[k]));
    } else {
        assert(proc_line(lines[lines.len() - 1], iface) == Some(proc_lines(lines, iface)[k]));
    }
}

/// `a` is what is left of `b` when some of its entries are taken out.
pub open spec fn is_subsequence<T>(a: Seq<T>, b: Seq<T>) -> bool
    decreases b.len(),
{
    if a.len() == 0 {
        true
    } else if b.len() == 0 {
        false
    } else {
        (a.last() == b.last() && is_subsequence(a.drop_last(), b.drop_last())) || is_subsequence(
            a,
            b.drop_last(),
        )
    }
}

/// The line names this interface.
pub open spec fn is_on(line: Seq<char>, iface: Seq<char>) -> bool {
    text::words(line).len() >= 6 && text::words(line)[5] == iface
}

/// Asking for one interface takes entries out and does nothing else: the rest
/// keep their order. All are left if every line with six columns names the
/// interface, and none if no line does.
pub proof fn law_interface_only_filters(lines: Seq<Seq<char>>, iface: Seq<char>)
    ensures
        is_subsequence(proc_lines(lines, Some(iface)), proc_lines(lines, None)),
        (forall|i: int|
            0 <= i < lines.len() && text::words(#[trigger] lines[i]).len() >= 6 ==> is_on(
                lines[i],
                iface,
            )) ==> proc_lines(lines, Some(iface)) == proc_lines(lines, None),
        (forall|i: int| 0 <= i < lines.len() ==> !is_on(#[trigger] lines[i], iface))
            ==> proc_lines(lines, Some(iface)).len() == 0,
    decreases lines.len(),
{
    if lines.len() > 0 {
        let d = lines.drop_last();
        law_interface_only_filters(d, iface);
        assert forall|i: int| 0 <= i < d.len() implies d[i] == #[trigger] lines[i] by {}
        assert(lines.last() == lines[lines.len() - 1]);
        let (some, all) = (proc_lines(d, Some(iface)), proc_lines(d, None));
        match (proc_line(lines.last(), Some(iface)), proc_line(lines.last(), None)) {
            (Some(e), Some(f)) => {
                assert(e == f);
                assert(some.push(e).drop_last() == some && all.push(e).drop_last() == all);
            },
            (None, Some(f)) => {
                assert(all.push(f).drop_last() == all);
            },
            _ => {},
        }
        if forall|i: int|
            0 <= i < lines.len() && text::words(#[trigger] lines[i]).len() >= 6 ==> is_on(
                lines[i],
                iface,
            ) {
            assert forall|i: int| 0 <= i < d.len() && text::words(#[trigger] d[i]).len() >= 6 implies is_on(
                d[i],
                iface,
            ) by {
                assert(is_on(lines[i], iface));
            }
        }
        if forall|i: int| 0 <= i < lines.len() ==> !is_on(#[trigger] lines[i], iface) {
            assert forall|i: int| 0 <= i < d.len() implies !is_on(#[trigger] d[i], iface) by {
                assert(!is_on(lines[i], iface));
            }
        }
    }
}

/// No placeholder is ever listed from `arp -a` either: every listed device comes
/// from a line that begins with an IPv4 address, and its MAC has separators.
pub proof fn law_listed_neighbours_are_real(lines: Seq<Seq<char>>, k: int)
    requires
        0 <= k < arp_lines(lines).len(),
    ensures
        exists|j: int|
            0 <= j < lines.len() && #[trigger] arp_line(lines[j]) == Some(arp_lines(lines)[k])
                && addr::ipv4(text::words(lines[j])[0]) is Some,
        !is_placeholder(text::lowercase(arp_lines(lines)[k].1)),
        arp_lines(lines)[k].1.contains(':'),
    decreases lines.len(),
{
    let before = arp_lines(lines.drop_last());
    if k < before.len() {
        law_listed_neighbours_are_real(lines.drop_last(), k);
        let j = choose|j: int|
            0 <= j < lines.drop_last().len() && #[trigger] arp_line(lines.drop_last()[j]) == Some(
                before[k],
            );
        assert(arp_line(lines[j]) == Some(arp_lines(lines)[k]));
    } else {
        assert(arp_line(lines[lines.len() - 1]) == Some(arp_lines(lines)[k]));
    }
}

/// A line of the table names a device where it has six columns, its flags are not "0x0",
/// it is of the wanted interface and its address is a real one. The device has the first
/// column as its address and the fourth, in small letters, as its hardware address.
pub proof fn law_each_line_names_a_device(
    a: Seq<Seq<char>>,
    b: Seq<Seq<char>>,
    line: Seq<char>,
    iface: Option<Seq<char>>,
)
    ensures
        proc_lines(a + b, iface) == proc_lines(a, iface) + proc_lines(b, iface),
        proc_lines(seq![line], iface) == ({
            let cols = text::words(line);
            let mac = text::lowercase(cols[3]);
            if cols.len() >= 6 && cols[2] != "0x0"@ && (iface is None || cols[5] == iface->0) && mac
                != "00:00:00:00:00:00"@ && mac != "ff:ff:ff:ff:ff:ff"@ && mac.len() > 0 {
                seq![(cols[0], mac)]
            } else {
                Seq::empty()
            }
        }),
        proc_lines(Seq::<Seq<char>>::empty(), iface) == Seq::<(Seq<char>, Seq<char>)>::empty(),
    decreases b.len(),
{
    reveal_with_fuel(proc_lines, 2);
    assert(seq![line].drop_last() == Seq::<Seq<char>>::empty());
    if b.len() == 0 {
        assert(a + b == a);
    } else {
        law_each_line_names_a_device(a, b.drop_last(), line, iface);
        assert((a + b).drop_last() == a + b.drop_last());
        assert(proc_lines(a + b, iface) == proc_lines(a, iface) + proc_lines(b, iface));
    }
}

/// A line names a neighbour where its first word is an address and its second a real
/// hardware address. Hyphens in that one are read as colons.
pub proof fn law_each_line_names_a_neighbour(a: Seq<Seq<char>>, b: Seq<Seq<char>>, line: Seq<char>)
    ensures
        arp_lines(a + b) == arp_lines(a) + arp_lines(b),
        arp_lines(seq![line]) == ({
            let cols = text::words(line);
            let mac = text::lowercase(text::replace_char(cols[1], '-', ':'));
            let plain = text::lowercase(mac);
            if cols.len() >= 2 && addr::ipv4(cols[0]) is Some && mac.contains(':') && plain
                != "00:00:00:00:00:00"@ && plain != "ff:ff:ff:ff:ff:ff"@ && plain.len() > 0 {
                seq![(cols[0], mac)]
            } else {
                Seq::empty()
            }
        }),
        arp_lines(Seq::<Seq<char>>::empty()) == Seq::<(Seq<char>, Seq<char>)>::empty(),
    decreases b.len(),
{
    reveal_with_fuel(arp_lines, 2);
    assert(seq![line].drop_last() == Seq::<Seq<char>>::empty());
    if b.len() == 0 {
        assert(a + b == a);
    } else {
        law_each_line_names_a_neighbour(a, b.drop_last(), line);
        assert((a + b).drop_last() == a + b.drop_last());
        assert(arp_lines(a + b) == arp_lines(a) + arp_lines(b));
    }
}


/// The first line is the heading.
pub proof fn law_heading_is_left_out(heading: Seq<char>, lines: Seq<Seq<char>>)
    ensures
        body(seq![heading] + lines) == lines,
        body(Seq::empty()) == Seq::<Seq<char>>::empty(),
{
    assert((seq![heading] + lines).skip(1) == lines);
}

/// An entry is taken by its address and its hardware address.
pub proof fn law_entries_are_taken_as_they_are(v: Seq<ArpEntry>, i: int)
    requires
        0 <= i < v.len(),
    ensures
        entries(v).len() == v.len(),
        entries(v)[i] == (v[i].ip@, v[i].mac@),
{
}

} // verus!
