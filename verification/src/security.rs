//! Security posture: tunnels, firewall state and open ports.

use vstd::prelude::*;

use crate::number;
use crate::text;

verus! {

// ---------------------------------------------------------------------------
// VPN
// ---------------------------------------------------------------------------

/// The interfaces that look like tunnels, if any.
#[derive(Clone, Debug, PartialEq, Eq)]
pub struct VpnStatus {
    pub active: bool,
    pub interfaces: Vec<String>,
}

/// Whether a lower-case interface name begins like that of a tunnel.
pub open spec fn is_tunnel(name: Seq<char>) -> bool {
    ||| text::starts(name, "wg"@)
    ||| text::starts(name, "tun"@)
    ||| text::starts(name, "tap"@)
    ||| text::starts(name, "ppp"@)
    ||| text::starts(name, "utun"@)
    ||| text::starts(name, "ipsec"@)
    ||| text::starts(name, "nordlynx"@)
    ||| text::starts(name, "proton"@)
}

fn tunnel(name: &str) -> (r: bool)
    ensures
        r == is_tunnel(text::lowercase(name@)),
{
    let low = text::to_lowercase(name);
    let n = text::chars(low.as_str());
    text::starts_with(&n, "wg") || text::starts_with(&n, "tun") || text::starts_with(&n, "tap")
        || text::starts_with(&n, "ppp") || text::starts_with(&n, "utun") || text::starts_with(
        &n,
        "ipsec",
    ) || text::starts_with(&n, "nordlynx") || text::starts_with(&n, "proton")
}

pub open spec fn texts(v: Seq<String>) -> Seq<Seq<char>> {
    v.map_values(|s: String| s@)
}

/// The names that belong to tunnels, in order.
pub open spec fn tunnels(names: Seq<Seq<char>>) -> Seq<Seq<char>> {
    names.filter(|n: Seq<char>| is_tunnel(text::lowercase(n)))
}

/// Finds a likely active VPN among the interface names.
pub fn detect_vpn(names: Vec<String>) -> (r: VpnStatus)
    ensures
        texts(r.interfaces@) == tunnels(texts(names@)),
        r.active == (r.interfaces@.len() > 0),
{
    let ghost v = texts(names@);
    let ghost pred = |n: Seq<char>| is_tunnel(text::lowercase(n));
    let mut interfaces: Vec<String> = Vec::new();
    let mut i: usize = 0;
    assert(texts(interfaces@) == v.take(0).filter(pred)) by {
        reveal(Seq::filter);
    }
    while i < names.len()
        invariant
            i <= names.len(),
            v == texts(names@),
            pred == (|n: Seq<char>| is_tunnel(text::lowercase(n))),
            texts(interfaces@) == v.take(i as int).filter(pred),
        decreases names.len() - i,
    {
        let ghost before = texts(interfaces@);
        proof {
            reveal(Seq::filter);
            assert(v.take(i + 1).drop_last() == v.take(i as int));
            assert(v.take(i + 1).last() == names@[i as int]@);
        }
        if tunnel(names[i].as_str()) {
            interfaces.push(names[i].clone());
            assert(texts(interfaces@) == before.push(names@[i as int]@));
        }
        i += 1;
    }
    assert(v.take(names@.len() as int) == v);
    VpnStatus { active: interfaces.len() > 0, interfaces }
}

// ---------------------------------------------------------------------------
// Firewall
// ---------------------------------------------------------------------------

/// The services asked about, in order.
pub fn firewall_services() -> (r: Vec<&'static str>)
    ensures
        r@.map_values(|s: &'static str| s@) == seq!["ufw"@, "firewalld"@, "nftables"@],
{
    let r = vec!["ufw", "firewalld", "nftables"];
    assert(r@.map_values(|s: &'static str| s@) == seq!["ufw"@, "firewalld"@, "nftables"@]);
    r
}

/// The answers of `systemctl is-active`, `None` where it could not be run.
pub open spec fn answers(v: Seq<Option<String>>) -> Seq<Option<Seq<char>>> {
    v.map_values(|o: Option<String>| text::opt_text(o))
}

pub open spec fn says_active(answer: Option<Seq<char>>) -> bool {
    answer is Some && text::trim(answer->0) == "active"@
}

/// On if any service is active; off if some answer came but none is active;
/// unknown if none came.
pub open spec fn linux_firewall(v: Seq<Option<Seq<char>>>) -> Option<bool> {
    if exists|i: int| 0 <= i < v.len() && says_active(#[trigger] v[i]) {
        Some(true)
    } else if exists|i: int| 0 <= i < v.len() && (#[trigger] v[i]) is Some {
        Some(false)
    } else {
        None
    }
}

pub fn firewall_active(outputs: &Vec<Option<String>>) -> (r: Option<bool>)
    ensures
        r == linux_firewall(answers(outputs@)),
{
    let ghost v = answers(outputs@);
    let mut ran = false;
    let mut i: usize = 0;
    while i < outputs.len()
        invariant
            i <= outputs.len(),
            v == answers(outputs@),
            forall|k: int| 0 <= k < i ==> !says_active(#[trigger] v[k]),
            ran == exists|k: int| 0 <= k < i && (#[trigger] v[k]) is Some,
        decreases outputs.len() - i,
    {
        assert(v[i as int] == text::opt_text(outputs@[i as int]));
        if let Some(out) = &outputs[i] {
            let all = text::chars(out.as_str());
            if text::same(text::trimmed(&all), "active") {
                assert(says_active(v[i as int]));
                return Some(true);
            }
            ran = true;
            assert(v[i as int] is Some);
        }
        i += 1;
    }
    if ran {
        Some(false)
    } else {
        None
    }
}

/// What `str::to_uppercase` makes of a text that is not ASCII.
pub uninterp spec fn unicode_upper(s: Seq<char>) -> Seq<char>;

/// The upper-case form of an ASCII character.
pub open spec fn ascii_upper(c: char) -> char {
    if 'a' <= c <= 'z' {
        (c as u32 - 32) as char
    } else {
        c
    }
}

/// A text in upper case.
pub open spec fn uppercase(s: Seq<char>) -> Seq<char> {
    if vstd::utf8::is_ascii_chars(s) {
        s.map_values(|c: char| ascii_upper(c))
    } else {
        unicode_upper(s)
    }
}

/// Trusted: `str::to_uppercase` maps each character of an ASCII text by the
/// ASCII case table. On other texts (the Unicode `Uppercase` mapping) it is a
/// function of the text alone, which `unicode_upper` names.
#[verifier::external_body]
fn to_uppercase(s: &str) -> (r: String)
    ensures
        s.is_ascii() ==> r@ == s@.map_values(|c: char| ascii_upper(c)),
        !s.is_ascii() ==> r@ == unicode_upper(s@),
{
    s.to_uppercase()
}

/// Whether `netsh advfirewall` reports a profile that is on. Text in upper case.
pub open spec fn reports_on(upper: Seq<char>) -> bool {
    text::contains(upper, "STATE"@) && text::contains(upper, "ON"@)
}

pub fn upper_reports_on(upper: &str) -> (r: bool)
    ensures
        r == reports_on(upper@),
{
    let u = text::chars(upper);
    text::has(&u, "STATE") && text::has(&u, "ON")
}

/// The firewall state from `netsh`'s output; `None` if it could not be run.
pub fn windows_firewall(output: Option<&str>) -> (r: Option<bool>)
    ensures
        r == (match output {
            Some(o) => Some(reports_on(uppercase(o@))),
            None => None,
        }),
{
    match output {
        Some(o) => {
            let up = to_uppercase(o);
            Some(upper_reports_on(up.as_str()))
        },
        None => None,
    }
}

// ---------------------------------------------------------------------------
// Ports
// ---------------------------------------------------------------------------

/// Service ports worth reporting when something listens on them.
pub fn common_ports() -> (r: Vec<u16>)
    ensures
        r@ == seq![
            22u16, 80, 135, 139, 443, 445, 631, 3000, 3306, 3389, 5432, 5900, 6379, 8000, 8080,
            8443, 9000,
        ],
{
    vec![
        22, 80, 135, 139, 443, 445, 631, 3000, 3306, 3389, 5432, 5900, 6379, 8000, 8080, 8443, 9000,
    ]
}

/// The ports of the scan that accepted a connection, in order.
pub open spec fn accepted(scan: Seq<(u16, bool)>) -> Seq<u16>
    decreases scan.len(),
{
    if scan.len() == 0 {
        Seq::empty()
    } else if scan.last().1 {
        accepted(scan.drop_last()).push(scan.last().0)
    } else {
        accepted(scan.drop_last())
    }
}

pub fn scan_local_ports(scan: &Vec<(u16, bool)>) -> (r: Vec<u16>)
    ensures
        r@ == accepted(scan@),
{
    let mut open: Vec<u16> = Vec::new();
    let mut i: usize = 0;
    while i < scan.len()
        invariant
            i <= scan.len(),
            open@ == accepted(scan@.take(i as int)),
        decreases scan.len() - i,
    {
        assert(scan@.take(i + 1).drop_last() == scan@.take(i as int));
        if scan[i].1 {
            open.push(scan[i].0);
        }
        i += 1;
    }
    assert(scan@.take(scan@.len() as int) == scan@);
    open
}

/// The numbers separated by commas.
pub open spec fn comma_list(v: Seq<u16>) -> Seq<char>
    decreases v.len(),
{
    if v.len() == 0 {
        Seq::empty()
    } else if v.len() == 1 {
        number::dec(v[0] as nat)
    } else {
        comma_list(v.drop_last()) + seq![','] + number::dec(v.last() as nat)
    }
}

/// Trusted: `serde_json::to_string` of a list of numbers cannot fail and writes
/// a compact JSON array: the numbers in decimal, separated by commas, in
/// square brackets.
#[verifier::external_body]
pub(crate) fn ports_json(ports: &Vec<u16>) -> (r: Option<String>)
    ensures
        text::opt_text(r) == Some(seq!['['] + comma_list(ports@) + seq![']']),
{
    serde_json::to_string(ports).ok()
}

/// An interface is a tunnel if and only if its name, in small letters, starts with one of
/// the names that tunnels have. Tunnels are listed in their order.
pub proof fn law_tunnels_are_told_by_their_name(
    a: Seq<Seq<char>>,
    b: Seq<Seq<char>>,
    name: Seq<char>,
)
    ensures
        tunnels(a + b) == tunnels(a) + tunnels(b),
        tunnels(seq![name]) == (if "wg"@.is_prefix_of(text::lowercase(name))
            || "tun"@.is_prefix_of(text::lowercase(name))
            || "tap"@.is_prefix_of(text::lowercase(name))
            || "ppp"@.is_prefix_of(text::lowercase(name))
            || "utun"@.is_prefix_of(text::lowercase(name))
            || "ipsec"@.is_prefix_of(text::lowercase(name))
            || "nordlynx"@.is_prefix_of(text::lowercase(name))
            || "proton"@.is_prefix_of(text::lowercase(name)) {
            seq![name]
        } else {
            Seq::empty()
        }),
        tunnels(Seq::empty()) == Seq::<Seq<char>>::empty(),
{
    let f = |n: Seq<char>| is_tunnel(text::lowercase(n));
    Seq::filter_distributes_over_add(a, b, f);
    reveal(Seq::filter);
    reveal_with_fuel(Seq::filter, 2);
    assert(seq![name].drop_last() == Seq::<Seq<char>>::empty());
    let l = text::lowercase(name);
    text::law_texts_start_and_end_with_a_pattern("wg"@, l);
    text::law_texts_start_and_end_with_a_pattern("tun"@, l);
    text::law_texts_start_and_end_with_a_pattern("tap"@, l);
    text::law_texts_start_and_end_with_a_pattern("ppp"@, l);
    text::law_texts_start_and_end_with_a_pattern("utun"@, l);
    text::law_texts_start_and_end_with_a_pattern("ipsec"@, l);
    text::law_texts_start_and_end_with_a_pattern("nordlynx"@, l);
    text::law_texts_start_and_end_with_a_pattern("proton"@, l);
}

/// The firewall is on where a service says that it is active, off where services answer
/// and none does, and unknown where none answers. A service without an answer does not
/// matter.
pub proof fn law_one_active_service_is_enough(v: Seq<Option<Seq<char>>>, answer: Option<Seq<char>>)
    ensures
        linux_firewall(v.push(answer)) == (match (linux_firewall(v), answer) {
            (before, None) => before,
            (Some(true), Some(_)) => Some(true),
            (_, Some(said)) => Some(text::trim(said) == "active"@),
        }),
        linux_firewall(Seq::empty()) is None,
{
    let w = v.push(answer);
    assert forall|i: int| 0 <= i < v.len() implies #[trigger] v[i] == w[i] by {}
    assert(w[v.len() as int] == answer);
    if exists|i: int| 0 <= i < v.len() && says_active(#[trigger] v[i]) {
        let i = choose|i: int| 0 <= i < v.len() && says_active(#[trigger] v[i]);
        assert(says_active(w[i]));
    }
    if exists|i: int| 0 <= i < v.len() && (#[trigger] v[i]) is Some {
        let i = choose|i: int| 0 <= i < v.len() && (#[trigger] v[i]) is Some;
        assert(w[i] is Some);
    }
    if exists|i: int| 0 <= i < w.len() && says_active(#[trigger] w[i]) {
        let i = choose|i: int| 0 <= i < w.len() && says_active(#[trigger] w[i]);
        if i < v.len() {
            assert(says_active(v[i]));
        }
    }
    if exists|i: int| 0 <= i < w.len() && (#[trigger] w[i]) is Some {
        let i = choose|i: int| 0 <= i < w.len() && (#[trigger] w[i]) is Some;
        if i < v.len() {
            assert(v[i] is Some);
        }
    }
}

/// The report on a firewall is read as on where both words stand in it.
pub proof fn law_reports_name_the_state(upper: Seq<char>, i: int, j: int)
    ensures
        0 <= i <= upper.len() - 5 && upper.subrange(i, i + 5) == "STATE"@ && 0 <= j <= upper.len()
            - 2 && upper.subrange(j, j + 2) == "ON"@ ==> reports_on(upper),
        reports_on(upper) ==> (exists|k: int|
            0 <= k <= upper.len() - 5 && #[trigger] upper.subrange(k, k + 5) == "STATE"@) && (exists|
            k: int,
        |
            0 <= k <= upper.len() - 2 && #[trigger] upper.subrange(k, k + 2) == "ON"@),
{
    reveal_strlit("STATE");
    reveal_strlit("ON");
    assert("STATE"@.len() == 5 && "ON"@.len() == 2);
    if 0 <= i <= upper.len() - 5 && upper.subrange(i, i + 5) == "STATE"@
        && 0 <= j <= upper.len() - 2
        && upper.subrange(j, j + 2) == "ON"@ {
        text::law_patterns_are_found_where_they_stand(upper, "STATE"@, i);
        text::law_patterns_are_found_where_they_stand(upper, "ON"@, j);
    }
    if reports_on(upper) {
        text::law_found_patterns_stand_there(upper, "STATE"@);
        text::law_found_patterns_stand_there(upper, "ON"@);
        let k = text::find(upper, "STATE"@)->0 as int;
        assert(upper.subrange(k, k + 5) == "STATE"@);
        let m = text::find(upper, "ON"@)->0 as int;
        assert(upper.subrange(m, m + 2) == "ON"@);
    }
}

/// The capital of a small letter stands 32 places before it; every other character of
/// ASCII is its own.
pub proof fn law_uppercase_of_ascii(s: Seq<char>, i: int)
    requires
        vstd::utf8::is_ascii_chars(s),
        0 <= i < s.len(),
    ensures
        uppercase(s).len() == s.len(),
        'a' <= s[i] <= 'z' ==> uppercase(s)[i] as u32 + 32 == s[i] as u32,
        !('a' <= s[i] <= 'z') ==> uppercase(s)[i] == s[i],
{
}

/// A port is open if and only if it accepted. Ports are listed in their order.
pub proof fn law_ports_that_accept_are_open(
    a: Seq<(u16, bool)>,
    b: Seq<(u16, bool)>,
    row: (u16, bool),
)
    ensures
        accepted(a + b) == accepted(a) + accepted(b),
        accepted(seq![row]) == (if row.1 {
            seq![row.0]
        } else {
            Seq::empty()
        }),
        accepted(Seq::<(u16, bool)>::empty()) == Seq::<u16>::empty(),
    decreases b.len(),
{
    reveal_with_fuel(accepted, 2);
    assert(seq![row].drop_last() == Seq::<(u16, bool)>::empty());
    if b.len() == 0 {
        assert(a + b == a);
    } else {
        law_ports_that_accept_are_open(a, b.drop_last(), row);
        assert((a + b).drop_last() == a + b.drop_last());
        assert(accepted(a + b) == accepted(a) + accepted(b));
    }
}


/// Numbers are listed with a comma between each two.
pub proof fn law_lists_join_with_a_comma(a: Seq<u16>, b: Seq<u16>, n: u16)
    ensures
        a.len() > 0 && b.len() > 0 ==> comma_list(a + b) == comma_list(a) + seq![','] + comma_list(
            b,
        ),
        comma_list(seq![n]) == number::dec(n as nat),
        comma_list(Seq::empty()) == Seq::<char>::empty(),
    decreases b.len(),
{
    if a.len() > 0 && b.len() > 0 {
        assert((a + b).drop_last() == a + b.drop_last());
        if b.len() > 1 {
            law_lists_join_with_a_comma(a, b.drop_last(), n);
            assert(comma_list(a + b) == comma_list(a) + seq![','] + comma_list(b));
        } else {
            assert(a + b.drop_last() == a);
        }
    }
}

} // verus!
