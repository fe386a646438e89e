//! From an IP address to its autonomous system, by Team Cymru's DNS service.
//!
//! The service answers TXT queries: `<reversed-ip>.origin.asn.cymru.com` gives
//! the origin's number and `AS<n>.asn.cymru.com` its name.

use vstd::prelude::*;

use crate::addr;
use crate::number;
use crate::text;
use crate::wifi;

verus! {

/// The query name for an IPv4 address: the octets in reverse order.
pub open spec fn origin_name(ip: addr::Ipv4) -> Seq<char> {
    number::dec(ip.d as nat) + "."@ + number::dec(ip.c as nat) + "."@ + number::dec(ip.b as nat)
        + "."@ + number::dec(ip.a as nat) + ".origin.asn.cymru.com."@
}

/// The query for an address: none for text that is no IPv4 address, or for one
/// that is not of the internet.
pub open spec fn origin_query_of(ip: Seq<char>) -> Option<Seq<char>> {
    match addr::ipv4(ip) {
        Some(v4) if !v4.spec_is_internal() => Some(origin_name(v4)),
        _ => None,
    }
}

pub fn origin_query(ip: &str) -> (r: Option<String>)
    ensures
        text::opt_text(r) == origin_query_of(ip@),
{
    match addr::read_ipv4(&text::chars(ip)) {
        Some(v4) => {
            if v4.is_internal() {
                return None;
            }
            let mut q = number::u64_text(v4.d as u64);
            q.append(".");
            number::push_u64(&mut q, v4.c as u64);
            q.append(".");
            number::push_u64(&mut q, v4.b as u64);
            q.append(".");
            number::push_u64(&mut q, v4.a as u64);
            q.append(".origin.asn.cymru.com.");
            Some(q)
        },
        None => None,
    }
}

/// The number in an origin answer such as `15169 | 8.8.8.0/24 | US | arin`: the
/// first word of the first field.
pub open spec fn origin_number(answer: Seq<char>) -> Option<Seq<char>> {
    wifi::first_word(text::trim(answer.take(text::until(answer, '|') as int)))
}

pub fn origin_asn(answer: &str) -> (r: Option<String>)
    ensures
        text::opt_text(r) == origin_number(answer@),
{
    let all = text::chars(answer);
    let n: usize = text::index_of(&all, '|');
    let head = &all.as_slice()[0..n];
    assert(head@ == answer@.take(n as int));
    match wifi::read_first_word(text::trimmed(head)) {
        Some(w) => Some(text::string(w)),
        None => None,
    }
}

/// The query for the name of a system.
pub fn name_query(asn: &str) -> (r: String)
    ensures
        r@ == "AS"@ + asn@ + ".asn.cymru.com."@,
{
    let mut q = "AS".to_string();
    q.append(asn);
    q.append(".asn.cymru.com.");
    q
}

/// The name in an answer such as `15169 | US | arin | date | GOOGLE, US`: the
/// last field, unless it is blank.
pub open spec fn last_field(answer: Seq<char>) -> Option<Seq<char>> {
    let name = text::trim(text::split(answer, '|').last());
    if name.len() == 0 {
        None
    } else {
        Some(name)
    }
}

pub fn asn_name(answer: &str) -> (r: Option<String>)
    ensures
        text::opt_text(r) == last_field(answer@),
{
    let all = text::chars(answer);
    let parts = text::pieces(&all, '|');
    let ghost v = text::split(answer@, '|');
    assert(parts@.len() == v.len());
    assert(v.last() == parts@[parts@.len() - 1]@);
    let name = text::trimmed(parts[parts.len() - 1]);
    if name.len() == 0 {
        None
    } else {
        Some(text::string(name))
    }
}

/// A system's number and name, as they are reported.
#[derive(Clone, Debug, PartialEq, Eq)]
pub struct AsInfo {
    pub asn: String,
    pub name: Option<String>,
}

impl View for AsInfo {
    type V = (Seq<char>, Option<Seq<char>>);

    open spec fn view(&self) -> (Seq<char>, Option<Seq<char>>) {
        (self.asn@, text::opt_text(self.name))
    }
}

/// The result of a lookup from the two answers; `None` where a query failed.
pub open spec fn as_info(origin: Option<Seq<char>>, name: Option<Seq<char>>) -> Option<
    (Seq<char>, Option<Seq<char>>),
> {
    match origin {
        Some(o) => match origin_number(o) {
            Some(n) => Some(
                (
                    "AS"@ + n,
                    match name {
                        Some(a) => last_field(a),
                        None => None,
                    },
                ),
            ),
            None => None,
        },
        None => None,
    }
}

pub fn lookup_asn(origin: Option<&str>, name: Option<&str>) -> (r: Option<AsInfo>)
    ensures
        match (r, as_info(text::str_view(origin), text::str_view(name))) {
            (Some(a), Some(v)) => a@ == v,
            (None, None) => true,
            _ => false,
        },
{
    let o = match origin {
        Some(o) => o,
        None => {
            return None;
        },
    };
    match origin_asn(o) {
        Some(n) => {
            let mut asn = "AS".to_string();
            asn.append(n.as_str());
            Some(
                AsInfo {
                    asn,
                    name: match name {
                        Some(a) => asn_name(a),
                        None => None,
                    },
                },
            )
        },
        None => None,
    }
}

/// The name that is asked for has the bytes of the address backwards. Nothing is asked of
/// an internal address.
pub proof fn law_origins_are_asked_backwards(ip: Seq<char>, a: u8, b: u8, c: u8, d: u8)
    requires
        addr::ipv4(ip) == Some(addr::Ipv4 { a, b, c, d }),
    ensures
        origin_query_of(ip) is None <==> {
            ||| a == 10
            ||| a == 172 && 16 <= b < 32
            ||| a == 192 && b == 168
            ||| a == 127
            ||| a == 169 && b == 254
            ||| a == 0 && b == 0 && c == 0 && d == 0
        },
        origin_query_of(ip) is Some ==> origin_query_of(ip)->0 == number::dec(d as nat) + "."@
            + number::dec(c as nat) + "."@ + number::dec(b as nat) + "."@ + number::dec(a as nat)
            + ".origin.asn.cymru.com."@,
{
}

/// The number of an origin is the first word before the first bar.
pub proof fn law_number_stands_before_the_bar(field: Seq<char>, rest: Seq<char>)
    requires
        !field.contains('|'),
    ensures
        origin_number(field + seq!['|'] + rest) == wifi::first_word(text::trim(field)),
        origin_number(field) == wifi::first_word(text::trim(field)),
{
    text::law_texts_are_split_at_every_separator(field, '|', rest);
    text::lemma_split_nonempty(field + seq!['|'] + rest, '|');
    text::lemma_split_nonempty(field, '|');
    assert((seq![field] + text::split(rest, '|'))[0] == field);
}

/// The name of a network stands behind the last bar.
pub proof fn law_name_stands_behind_the_last_bar(before: Seq<char>, field: Seq<char>)
    requires
        !field.contains('|'),
    ensures
        last_field(before + seq!['|'] + field) == (if text::trim(field).len() > 0 {
            Some(text::trim(field))
        } else {
            None
        }),
        last_field(field) == last_field(before + seq!['|'] + field),
    decreases before.len(),
{
    text::law_texts_are_split_at_every_separator(field, '|', field);
    lemma_last_part(before, field);
}

proof fn lemma_last_part(before: Seq<char>, field: Seq<char>)
    requires
        !field.contains('|'),
    ensures
        text::split(before + seq!['|'] + field, '|').last() == field,
    decreases before.len(),
{
    let s = before + seq!['|'] + field;
    text::lemma_until(before, '|');
    let n = text::until(before, '|') as int;
    let first = before.take(n);
    text::law_texts_are_split_at_every_separator(field, '|', field);
    assert forall|i: int| 0 <= i < first.len() implies first[i] != '|' by {
        assert(first[i] == before[i]);
    }
    if n < before.len() {
        let rest = before.skip(n + 1);
        let tail = rest + seq!['|'] + field;
        lemma_last_part(rest, field);
        text::law_texts_are_split_at_every_separator(first, '|', tail);
        assert(s == first + seq!['|'] + tail);
        text::lemma_split_nonempty(tail, '|');
    } else {
        assert(first == before);
        text::law_texts_are_split_at_every_separator(before, '|', field);
    }
}

/// A network is known by its number, with its name where that is known.
pub proof fn law_networks_are_known_by_their_number(
    origin: Option<Seq<char>>,
    name: Option<Seq<char>>,
)
    ensures
        as_info(origin, name) is Some <==> origin is Some && origin_number(origin->0) is Some,
        match as_info(origin, name) {
            Some((number, called)) => {
                &&& number == "AS"@ + origin_number(origin->0)->0
                &&& name is None ==> called is None
                &&& name is Some ==> called == last_field(name->0)
            },
            None => true,
        },
{
}

} // verus!
