//! IP address literals.

use vstd::prelude::*;

use crate::number;
use crate::text;

verus! {

/// The four octets of an IPv4 address.
#[derive(Clone, Copy, Debug, PartialEq, Eq, Structural)]
pub struct Ipv4 {
    pub a: u8,
    pub b: u8,
    pub c: u8,
    pub d: u8,
}

/// One octet: up to three digits, no leading zero, at most 255.
pub open spec fn is_octet(s: Seq<char>) -> bool {
    &&& 1 <= s.len() <= 3
    &&& number::all_digits(s)
    &&& s.len() == 1 || s[0] != '0'
    &&& number::decimal(s) <= 255
}

/// The address that a dotted quad denotes.
pub open spec fn ipv4(s: Seq<char>) -> Option<Ipv4> {
    let p = text::split(s, '.');
    if p.len() == 4 && is_octet(p[0]) && is_octet(p[1]) && is_octet(p[2]) && is_octet(p[3]) {
        Some(
            Ipv4 {
                a: number::decimal(p[0]) as u8,
                b: number::decimal(p[1]) as u8,
                c: number::decimal(p[2]) as u8,
                d: number::decimal(p[3]) as u8,
            },
        )
    } else {
        None
    }
}

fn read_octet(s: &[char]) -> (r: Option<u8>)
    ensures
        r == (if is_octet(s@) {
            Some(number::decimal(s@) as u8)
        } else {
            None
        }),
{
    if s.len() == 0 || s.len() > 3 || !number::only_digits(s) {
        return None;
    }
    if s.len() > 1 && s[0] == '0' {
        return None;
    }
    match number::decimal_up_to(s, 255) {
        Some(n) => Some(n as u8),
        None => None,
    }
}

/// Reads a dotted quad.
pub fn read_ipv4(s: &[char]) -> (r: Option<Ipv4>)
    ensures
        r == ipv4(s@),
{
    let p = text::pieces(s, '.');
    let ghost v = text::split(s@, '.');
    assert(p@.len() == v.len());
    if p.len() != 4 {
        return None;
    }
    assert(v[0] == p@[0]@ && v[1] == p@[1]@ && v[2] == p@[2]@ && v[3] == p@[3]@);
    match (read_octet(p[0]), read_octet(p[1]), read_octet(p[2]), read_octet(p[3])) {
        (Some(a), Some(b), Some(c), Some(d)) => Some(Ipv4 { a, b, c, d }),
        _ => None,
    }
}

pub open spec fn is_hex_digit(c: char) -> bool {
    number::is_digit(c) || 'a' <= c <= 'f' || 'A' <= c <= 'F'
}

fn hex_digit(c: char) -> (r: bool)
    ensures
        r == is_hex_digit(c),
{
    let n: u32 = c as u32;
    (0x30 <= n && n <= 0x39) || (0x61 <= n && n <= 0x66) || (0x41 <= n && n <= 0x46)
}

/// One group of an IPv6 address: one to four hexadecimal digits.
pub open spec fn is_group(s: Seq<char>) -> bool {
    1 <= s.len() <= 4 && forall|i: int| 0 <= i < s.len() ==> is_hex_digit(#[trigger] s[i])
}

fn group(s: &[char]) -> (r: bool)
    ensures
        r == is_group(s@),
{
    if s.len() == 0 || s.len() > 4 {
        return false;
    }
    let mut i: usize = 0;
    while i < s.len()
        invariant
            i <= s.len() <= 4,
            forall|k: int| 0 <= k < i ==> is_hex_digit(#[trigger] s@[k]),
        decreases s.len() - i,
    {
        if !hex_digit(s[i]) {
            return false;
        }
        i += 1;
    }
    true
}

/// How many 16-bit groups the parts make up. A dotted quad counts for two and
/// may stand last, where `quad` allows it.
pub open spec fn group_count(parts: Seq<Seq<char>>, quad: bool) -> Option<nat>
    decreases parts.len(),
{
    if parts.len() == 0 {
        Some(0)
    } else if parts.len() == 1 && quad && ipv4(parts[0]) is Some {
        Some(2)
    } else if is_group(parts[0]) {
        match group_count(parts.skip(1), quad) {
            Some(n) => Some(n + 1),
            None => None,
        }
    } else {
        None
    }
}

/// The groups on one side of `::`, which may be empty.
pub open spec fn side_count(s: Seq<char>, quad: bool) -> Option<nat> {
    if s.len() == 0 {
        Some(0)
    } else {
        group_count(text::split(s, ':'), quad)
    }
}

/// Whether `s` is an IPv6 address: eight groups, or fewer round one `::`.
pub open spec fn is_ipv6(s: Seq<char>) -> bool {
    match text::find(s, "::"@) {
        None => group_count(text::split(s, ':'), true) == Some(8nat),
        Some(i) => match (side_count(s.take(i as int), false), side_count(s.skip(i as int + 2), true)) {
            (Some(l), Some(r)) => l + r <= 7,
            _ => false,
        },
    }
}

/// Whether `s` is an IP address of either version.
pub open spec fn is_ip(s: Seq<char>) -> bool {
    ipv4(s) is Some || is_ipv6(s)
}

fn count_groups(s: &[char], quad: bool) -> (r: Option<usize>)
    ensures
        match r {
            Some(n) => group_count(text::split(s@, ':'), quad) == Some(n as nat),
            None => match group_count(text::split(s@, ':'), quad) {
                Some(n) => n > usize::MAX,
                None => true,
            },
        },
{
    let parts = text::pieces(s, ':');
    let ghost v = text::split(s@, ':');
    assert(parts@.len() == v.len());
    assert(v.skip(0) == v);
    let mut i: usize = 0;
    while i < parts.len()
        invariant
            i <= parts.len(),
            text::views(parts@) == v,
            v == text::split(s@, ':'),
            group_count(v, quad) == (match group_count(v.skip(i as int), quad) {
                Some(n) => Some((n + i) as nat),
                None => None,
            }),
        decreases parts.len() - i,
    {
        assert(v[i as int] == parts@[i as int]@);
        assert(v.skip(i as int)[0] == v[i as int]);
        assert(v.skip(i as int).skip(1) == v.skip(i + 1));
        if i + 1 == parts.len() && quad && read_ipv4(parts[i]).is_some() {
            if i > usize::MAX - 2 {
                return None;
            }
            return Some(i + 2);
        }
        if !group(parts[i]) {
            return None;
        }
        i += 1;
    }
    Some(i)
}

fn count_side(s: &[char], quad: bool) -> (r: Option<usize>)
    ensures
        match r {
            Some(n) => side_count(s@, quad) == Some(n as nat),
            None => match side_count(s@, quad) {
                Some(n) => n > usize::MAX,
                None => true,
            },
        },
{
    if s.len() == 0 {
        Some(0)
    } else {
        count_groups(s, quad)
    }
}

fn ipv6(s: &[char]) -> (r: bool)
    ensures
        r == is_ipv6(s@),
{
    proof {
        reveal_strlit("::");
        assert("::"@.len() == 2);
    }
    match text::find_str(s, "::") {
        None => match count_groups(s, true) {
            Some(n) => n == 8,
            None => false,
        },
        Some(i) => {
            let n: usize = s.len();
            let left = &s[0..i];
            let right = &s[i + 2..n];
            assert(left@ == s@.take(i as int));
            assert(right@ == s@.skip(i + 2));
            match (count_side(left, false), count_side(right, true)) {
                (Some(l), Some(r)) => l <= 7 && r <= 7 - l,
                _ => false,
            }
        },
    }
}

/// Recognises an IP address of either version.
pub fn ip(s: &[char]) -> (r: bool)
    ensures
        r == is_ip(s@),
{
    read_ipv4(s).is_some() || ipv6(s)
}

impl Ipv4 {
    /// Private, loopback, link-local or unspecified: not an internet address.
    pub open spec fn spec_is_internal(self) -> bool {
        ||| self.a == 10
        ||| self.a == 172 && 16 <= self.b <= 31
        ||| self.a == 192 && self.b == 168
        ||| self.a == 127
        ||| self.a == 169 && self.b == 254
        ||| self.a == 0 && self.b == 0 && self.c == 0 && self.d == 0
    }

    pub fn is_internal(&self) -> (r: bool)
        ensures
            r == self.spec_is_internal(),
    {
        self.a == 10 || (self.a == 172 && 16 <= self.b && self.b <= 31) || (self.a == 192 && self.b
            == 168) || self.a == 127 || (self.a == 169 && self.b == 254) || (self.a == 0 && self.b
            == 0 && self.c == 0 && self.d == 0)
    }
}

/// Internal are the private networks, the loopback, the link-local one and the address
/// without a network.
pub proof fn law_internal_networks(a: u8, b: u8, c: u8, d: u8)
    ensures
        ({
            let n = a * 0x1000000 + b * 0x10000 + c * 0x100 + d;
            Ipv4 { a, b, c, d }.spec_is_internal() <==> {
                ||| 10 * 0x1000000 <= n < 11 * 0x1000000
                ||| 172 * 0x1000000 + 16 * 0x10000 <= n < 172 * 0x1000000 + 32 * 0x10000
                ||| 192 * 0x1000000 + 168 * 0x10000 <= n < 192 * 0x1000000 + 169 * 0x10000
                ||| 127 * 0x1000000 <= n < 128 * 0x1000000
                ||| 169 * 0x1000000 + 254 * 0x10000 <= n < 169 * 0x1000000 + 255 * 0x10000
                ||| n == 0
            }
        }),
{
}

/// The written form of an address is read back.
pub proof fn law_addresses_round_trip(ip: Ipv4)
    ensures
        ipv4(
            number::dec(ip.a as nat) + seq!['.'] + (number::dec(ip.b as nat) + seq!['.'] + (
            number::dec(ip.c as nat) + seq!['.'] + number::dec(ip.d as nat))),
        ) == Some(ip),
{
    let (a, b, c, d) = (
        number::dec(ip.a as nat),
        number::dec(ip.b as nat),
        number::dec(ip.c as nat),
        number::dec(ip.d as nat),
    );
    lemma_octet(ip.a);
    lemma_octet(ip.b);
    lemma_octet(ip.c);
    lemma_octet(ip.d);
    text::law_texts_are_split_at_every_separator(
        a,
        '.',
        b + seq!['.'] + (c + seq!['.'] + d),
    );
    text::law_texts_are_split_at_every_separator(b, '.', c + seq!['.'] + d);
    text::law_texts_are_split_at_every_separator(c, '.', d);
    text::law_texts_are_split_at_every_separator(d, '.', d);
    assert(seq![a] + (seq![b] + (seq![c] + seq![d])) == seq![a, b, c, d]);
}

/// The digits of a byte are an octet.
proof fn lemma_octet(n: u8)
    ensures
        is_octet(number::dec(n as nat)),
        number::decimal(number::dec(n as nat)) == n,
        !number::dec(n as nat).contains('.'),
{
    let s = number::dec(n as nat);
    reveal_with_fuel(number::dec, 4);
    number::lemma_decimal_of_dec(n as nat);
    if s.contains('.') {
        let i = choose|i: int| 0 <= i < s.len() && s[i] == '.';
        assert(number::is_digit(s[i]));
    }
}

/// An octet has one to three digits, no needless zero and a value of at most 255.
pub proof fn law_octets(s: Seq<char>)
    ensures
        is_octet(s) ==> 1 <= s.len() <= 3 && number::decimal(s) < 256 && forall|i: int|
            0 <= i < s.len() ==> '0' <= #[trigger] s[i] <= '9',
        s.len() > 1 && s[0] == '0' ==> !is_octet(s),
        number::decimal(s) >= 256 ==> !is_octet(s),
{
}

/// Groups of one to four hexadecimal digits count one each.
pub proof fn law_groups_count_one_each(parts: Seq<Seq<char>>, quad: bool)
    requires
        forall|i: int|
            0 <= i < parts.len() ==> 1 <= (#[trigger] parts[i]).len() <= 4 && forall|k: int|
                0 <= k < parts[i].len() ==> '0' <= #[trigger] parts[i][k] <= '9' || 'a'
                    <= parts[i][k] <= 'f' || 'A' <= parts[i][k] <= 'F',
    ensures
        group_count(parts, quad) == Some(parts.len()),
    decreases parts.len(),
{
    if parts.len() > 0 {
        let g = parts[0];
        let r = parts.skip(1);
        assert forall|i: int| 0 <= i < r.len() implies 1 <= (#[trigger] r[i]).len() <= 4 && forall|
            k: int,
        |
            0 <= k < r[i].len() ==> '0' <= #[trigger] r[i][k] <= '9' || 'a' <= r[i][k] <= 'f' || 'A'
                <= r[i][k] <= 'F' by {
            assert(r[i] == parts[i + 1]);
        }
        law_groups_count_one_each(r, quad);
        assert forall|k: int| 0 <= k < g.len() implies is_hex_digit(#[trigger] g[k]) && g[k]
            != '.' by {}
        assert(!g.contains('.'));
        text::law_texts_are_split_at_every_separator(g, '.', g);
    }
}

/// An address of the fourth version at the end counts for two groups.
pub proof fn law_last_quad_counts_two(parts: Seq<Seq<char>>, quad: Seq<char>)
    requires
        forall|i: int| 0 <= i < parts.len() ==> is_group(#[trigger] parts[i]),
        ipv4(quad) is Some,
    ensures
        group_count(parts.push(quad), true) == Some(parts.len() + 2),
    decreases parts.len(),
{
    let v = parts.push(quad);
    if parts.len() > 0 {
        let r = parts.skip(1);
        assert forall|i: int| 0 <= i < r.len() implies is_group(#[trigger] r[i]) by {
            assert(r[i] == parts[i + 1]);
        }
        law_last_quad_counts_two(r, quad);
        assert(v[0] == parts[0]);
        assert(v.skip(1) == r.push(quad));
    }
}

/// A part that is neither makes the whole no address.
pub proof fn law_other_groups_are_refused(parts: Seq<Seq<char>>, quad: bool, i: int)
    requires
        0 <= i < parts.len(),
        !(1 <= parts[i].len() <= 4) || exists|k: int|
            0 <= k < parts[i].len() && !('0' <= #[trigger] parts[i][k] <= '9' || 'a' <= parts[i][k]
                <= 'f' || 'A' <= parts[i][k] <= 'F'),
        i < parts.len() - 1 || !quad || ipv4(parts[i]) is None,
    ensures
        group_count(parts, quad) is None,
    decreases parts.len(),
{
    if i > 0 {
        assert(parts.skip(1)[i - 1] == parts[i]);
        law_other_groups_are_refused(parts.skip(1), quad, i - 1);
    } else {
        if exists|k: int|
            0 <= k < parts[i].len() && !('0' <= #[trigger] parts[i][k] <= '9' || 'a' <= parts[i][k]
                <= 'f' || 'A' <= parts[i][k] <= 'F') {
            let k = choose|k: int|
                0 <= k < parts[i].len() && !('0' <= #[trigger] parts[i][k] <= '9' || 'a'
                    <= parts[i][k] <= 'f' || 'A' <= parts[i][k] <= 'F');
            assert(!is_hex_digit(parts[0][k]));
        }
        assert(!is_group(parts[0]));
    }
}

/// An address of the sixth version has eight groups. A double colon stands for at least one
/// of them, and the part of the fourth version stands behind it.
pub proof fn law_eight_groups(s: Seq<char>, l: nat, r: nat)
    ensures
        !text::contains(s, "::"@) ==> (is_ipv6(s) <==> group_count(text::split(s, ':'), true)
            == Some(8nat)),
        text::contains(s, "::"@) ==> ({
            let i = text::find(s, "::"@)->0 as int;
            &&& side_count(s.take(i), false) == Some(l)
                && side_count(s.skip(i + 2), true) == Some(r)
                ==> (is_ipv6(s) <==> l + r < 8)
            &&& side_count(s.take(i), false) is None || side_count(s.skip(i + 2), true) is None
                ==> !is_ipv6(s)
        }),
        side_count(Seq::empty(), true) == Some(0nat)
            && side_count(Seq::empty(), false) == Some(0nat),
        s.len() > 0 ==> side_count(s, true) == group_count(text::split(s, ':'), true)
            && side_count(s, false) == group_count(text::split(s, ':'), false),
        is_ip(s) <==> ipv4(s) is Some || is_ipv6(s),
{
}

} // verus!
