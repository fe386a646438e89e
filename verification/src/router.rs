//! Basic router facts read over SNMP.

use vstd::prelude::*;

use crate::text;

verus! {

#[derive(Clone, Debug, PartialEq, Eq)]
pub struct RouterInfo {
    pub descr: Option<String>,
    pub name: Option<String>,
    pub uptime_secs: Option<u64>,
}

impl Default for RouterInfo {
    fn default() -> (r: RouterInfo)
        ensures
            r.descr is None && r.name is None && r.uptime_secs is None,
    {
        RouterInfo { descr: None, name: None, uptime_secs: None }
    }
}

/// The object identifiers of the description, the name and the uptime.
pub fn sys_descr() -> (r: Vec<u32>)
    ensures
        r@ == seq![1u32, 3, 6, 1, 2, 1, 1, 1, 0],
{
    vec![1, 3, 6, 1, 2, 1, 1, 1, 0]
}

pub fn sys_name() -> (r: Vec<u32>)
    ensures
        r@ == seq![1u32, 3, 6, 1, 2, 1, 1, 5, 0],
{
    vec![1, 3, 6, 1, 2, 1, 1, 5, 0]
}

pub fn sys_uptime() -> (r: Vec<u32>)
    ensures
        r@ == seq![1u32, 3, 6, 1, 2, 1, 1, 3, 0],
{
    vec![1, 3, 6, 1, 2, 1, 1, 3, 0]
}

/// What a router's answers say, the uptime in hundredths of a second; `None` if
/// it answered nothing.
pub fn query_router(descr: Option<String>, name: Option<String>, ticks: Option<u32>) -> (r: Option<
    RouterInfo,
>)
    ensures
        match r {
            Some(i) => {
                &&& i.descr == descr
                &&& i.name == name
                &&& i.uptime_secs == (match ticks {
                    Some(t) => Some((t / 100) as u64),
                    None => None,
                })
                &&& descr is Some || name is Some || ticks is Some
            },
            None => descr is None && name is None && ticks is None,
        },
        is_answer(r, descr, name, ticks),
{
    let uptime_secs: Option<u64> = match ticks {
        Some(t) => Some((t / 100) as u64),
        None => None,
    };
    if descr.is_none() && name.is_none() && uptime_secs.is_none() {
        None
    } else {
        Some(RouterInfo { descr, name, uptime_secs })
    }
}

/// The SNMP address of a router: as it is given, with port 161 behind it if it
/// names no port.
pub fn snmp_address(addr: &str) -> (r: String)
    ensures
        r@ == with_port(addr@),
{
    let mut out = addr.to_string();
    if !text::has_char(&text::chars(addr), ':') {
        out.append(":161");
    }
    out
}

/// What the answers of a router say.
pub open spec fn is_answer(
    r: Option<RouterInfo>,
    descr: Option<String>,
    name: Option<String>,
    ticks: Option<u32>,
) -> bool {
    match r {
        Some(i) => {
            &&& i.descr == descr && i.name == name
            &&& i.uptime_secs is Some <==> ticks is Some
            &&& ticks is Some ==> i.uptime_secs->0 == ticks->0 as int / 100
        },
        None => descr is None && name is None && ticks is None,
    }
}

/// An address with the port of the protocol, unless it names one.
pub open spec fn with_port(addr: Seq<char>) -> Seq<char> {
    if addr.contains(':') {
        addr
    } else {
        addr + ":161"@
    }
}

/// A hundred ticks are a second. A router that answered anything is known by what it
/// answered.
pub proof fn law_ticks_are_hundredths(
    r: Option<RouterInfo>,
    descr: Option<String>,
    name: Option<String>,
    ticks: Option<u32>,
)
    requires
        is_answer(r, descr, name, ticks),
    ensures
        descr is Some || name is Some || ticks is Some ==> r is Some,
        r is Some ==> r->0.descr == descr && r->0.name == name,
        r is Some && ticks is Some ==> r->0.uptime_secs is Some && r->0.uptime_secs->0 * 100
            <= ticks->0 < (r->0.uptime_secs->0 + 1) * 100,
        r is Some && ticks is None ==> r->0.uptime_secs is None,
{
}

/// An address without a port gets that of the protocol; one with a port stays.
pub proof fn law_port_is_filled_in(host: Seq<char>, port: Seq<char>)
    requires
        !host.contains(':'),
    ensures
        with_port(host) == host + ":161"@,
        with_port(host + seq![':'] + port) == host + seq![':'] + port,
        with_port(with_port(host)) == with_port(host),
{
    let s = host + seq![':'] + port;
    assert(s[host.len() as int] == ':');
    reveal_strlit(":161");
    assert((host + ":161"@)[host.len() as int] == ':');
}

} // verus!
