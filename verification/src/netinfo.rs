//! The public IP address, as two web services report it.

use vstd::prelude::*;

use crate::text;

verus! {

/// The value of the first `ip=` line of a trace answer, unless it is blank.
pub open spec fn trace_ip(lines: Seq<Seq<char>>) -> Option<Seq<char>>
    decreases lines.len(),
{
    if lines.len() == 0 {
        None
    } else {
        match text::after_prefix(lines[0], "ip="@) {
            Some(rest) => non_blank(rest),
            None => trace_ip(lines.skip(1)),
        }
    }
}

/// `s` trimmed, unless nothing is left.
pub open spec fn non_blank(s: Seq<char>) -> Option<Seq<char>> {
    if text::trim(s).len() == 0 {
        None
    } else {
        Some(text::trim(s))
    }
}

fn read_non_blank(s: &[char]) -> (r: Option<String>)
    ensures
        text::opt_text(r) == non_blank(s@),
{
    let t = text::trimmed(s);
    if t.len() == 0 {
        None
    } else {
        Some(text::string(t))
    }
}

/// Reads the address out of a `cdn-cgi/trace` answer.
pub fn cloudflare_trace(body: &str) -> (r: Option<String>)
    ensures
        text::opt_text(r) == trace_ip(text::lines(body@)),
{
    let all = text::chars(body);
    let lines = text::split_lines(&all);
    let ghost v = text::lines(body@);
    let mut i: usize = 0;
    assert(v.skip(0) == v);
    while i < lines.len()
        invariant
            i <= lines.len(),
            text::views(lines@) == v,
            v == text::lines(body@),
            trace_ip(v) == trace_ip(v.skip(i as int)),
        decreases lines.len() - i,
    {
        assert(v.skip(i as int)[0] == lines@[i as int]@);
        assert(v.skip(i as int).skip(1) == v.skip(i + 1));
        if let Some(rest) = text::strip_prefix(lines[i], "ip=") {
            return read_non_blank(rest);
        }
        i += 1;
    }
    None
}

/// Reads the address out of an ipify answer, which is the address alone.
pub fn ipify(body: &str) -> (r: Option<String>)
    ensures
        text::opt_text(r) == non_blank(body@),
{
    read_non_blank(&text::chars(body))
}

/// The public address from the answers of the two services: the trace answer
/// counts first, the second one only if the first gives no address. `None` is a
/// service that did not answer.
pub fn public_ip(trace: Option<&str>, fallback: Option<&str>) -> (r: Option<String>)
    ensures
        text::opt_text(r) == address(text::str_view(trace), text::str_view(fallback)),
{
    if let Some(t) = trace {
        let ip = cloudflare_trace(t);
        if ip.is_some() {
            return ip;
        }
    }
    match fallback {
        Some(f) => ipify(f),
        None => None,
    }
}

/// The address that two services tell, the first before the second.
pub open spec fn address(trace: Option<Seq<char>>, fallback: Option<Seq<char>>) -> Option<Seq<char>> {
    match (trace, fallback) {
        (Some(t), _) if trace_ip(text::lines(t)) is Some => trace_ip(text::lines(t)),
        (_, Some(f)) => non_blank(f),
        (_, None) => None,
    }
}

/// The address is what the first line that starts with "ip=" says, unless that is blank.
pub proof fn law_first_address_line_counts(
    before: Seq<Seq<char>>,
    rest: Seq<char>,
    after: Seq<Seq<char>>,
)
    requires
        forall|i: int| 0 <= i < before.len() ==> !"ip="@.is_prefix_of(#[trigger] before[i]),
    ensures
        trace_ip(before + seq!["ip="@ + rest] + after) == (if text::trim(rest).len() > 0 {
            Some(text::trim(rest))
        } else {
            None
        }),
        trace_ip(before) is None,
    decreases before.len(),
{
    let line = "ip="@ + rest;
    let v = before + seq![line] + after;
    text::law_texts_start_and_end_with_a_pattern("ip="@, rest);
    if before.len() > 0 {
        let r = before.skip(1);
        text::law_texts_start_and_end_with_a_pattern("ip="@, before[0]);
        assert forall|i: int| 0 <= i < r.len() implies !"ip="@.is_prefix_of(#[trigger] r[i]) by {
            assert(r[i] == before[i + 1]);
        }
        law_first_address_line_counts(r, rest, after);
        assert(v[0] == before[0]);
        assert(v.skip(1) == r + seq![line] + after);
    } else {
        assert(v[0] == line);
    }
}

/// The first answer is taken where it tells an address, and else the second.
pub proof fn law_second_service_is_asked_in_need(
    trace: Option<Seq<char>>,
    fallback: Option<Seq<char>>,
)
    ensures
        trace is Some && trace_ip(text::lines(trace->0)) is Some ==> address(trace, fallback)
            == trace_ip(text::lines(trace->0)),
        !(trace is Some && trace_ip(text::lines(trace->0)) is Some) ==> {
            &&& fallback is None ==> address(trace, fallback) is None
            &&& fallback is Some && text::trim(fallback->0).len() == 0 ==> address(
                trace,
                fallback,
            ) is None
            &&& fallback is Some && text::trim(fallback->0).len() > 0 ==> address(trace, fallback)
                == Some(text::trim(fallback->0))
        },
{
}

} // verus!
