//! DNS lookups and the resolver's cache counters.

use vstd::prelude::*;

use crate::number;
use crate::probe;
use crate::text;

verus! {

/// One lookup against a chosen resolver. The time is in billionths of a
/// millisecond.
#[derive(Clone, Debug, PartialEq, Eq)]
pub struct DnsResult {
    pub resolver: String,
    pub query_host: String,
    pub lookup_ms: Option<u64>,
    pub success: bool,
}

/// What a lookup counts for: it succeeded if it gave at least one address, and
/// only then its time is kept.
pub fn dns_outcome(resolver: &str, host: &str, addresses: Option<usize>, elapsed_ns: u64) -> (r:
    DnsResult)
    ensures
        r.resolver@ == resolver@,
        r.query_host@ == host@,
        r.success == (addresses is Some && addresses->0 > 0),
        r.lookup_ms == (if r.success {
            Some(probe::millis(elapsed_ns))
        } else {
            None
        }),
        is_outcome(r, resolver@, host@, addresses, elapsed_ns),
{
    let success = match addresses {
        Some(n) => n > 0,
        None => false,
    };
    DnsResult {
        resolver: resolver.to_string(),
        query_host: host.to_string(),
        lookup_ms: if success {
            Some(probe::millis_of(elapsed_ns))
        } else {
            None
        },
        success,
    }
}

/// Cumulative DNS cache counters of the system resolver.
#[derive(Clone, Copy, Debug, PartialEq, Eq, Structural)]
pub struct DnsCacheStats {
    pub hits: i64,
    pub misses: i64,
}

/// The counters known after one more line of the statistics.
pub open spec fn cache_line(seen: (Option<i64>, Option<i64>), line: Seq<char>) -> (
    Option<i64>,
    Option<i64>,
) {
    let l = text::trim(line);
    match text::after_prefix(l, "Cache Hits:"@) {
        Some(v) => (number::parse_i64(text::trim(v)), seen.1),
        None => match text::after_prefix(l, "Cache Misses:"@) {
            Some(v) => (seen.0, number::parse_i64(text::trim(v))),
            None => seen,
        },
    }
}

pub open spec fn cache_lines(lines: Seq<Seq<char>>) -> (Option<i64>, Option<i64>)
    decreases lines.len(),
{
    if lines.len() == 0 {
        (None, None)
    } else {
        cache_line(cache_lines(lines.drop_last()), lines.last())
    }
}

/// Reads the `Cache Hits:` and `Cache Misses:` lines of `resolvectl statistics`;
/// `None` unless both were read.
pub fn parse_resolvectl(text: &str) -> (r: Option<DnsCacheStats>)
    ensures
        r == cache_counts(text::lines(text@)),
{
    let all = text::chars(text);
    let lines = text::split_lines(&all);
    let ghost v = text::lines(text@);
    let mut hits: Option<i64> = None;
    let mut misses: Option<i64> = None;
    let mut i: usize = 0;
    while i < lines.len()
        invariant
            i <= lines.len(),
            text::views(lines@) == v,
            (hits, misses) == cache_lines(v.take(i as int)),
        decreases lines.len() - i,
    {
        assert(v.take(i + 1).drop_last() == v.take(i as int));
        assert(v.take(i + 1).last() == lines@[i as int]@);
        let l = text::trimmed(lines[i]);
        if let Some(rest) = text::strip_prefix(l, "Cache Hits:") {
            hits = number::read_i64(text::trimmed(rest));
        } else if let Some(rest) = text::strip_prefix(l, "Cache Misses:") {
            misses = number::read_i64(text::trimmed(rest));
        }
        i += 1;
    }
    assert(v.take(lines@.len() as int) == v);
    match (hits, misses) {
        (Some(hits), Some(misses)) => Some(DnsCacheStats { hits, misses }),
        _ => None,
    }
}

/// A line that starts with "Cache Hits:" gives the hits and one that starts with "Cache
/// Misses:" the misses; of several the last counts. No other line matters.
pub proof fn law_lines_give_hits_or_misses(lines: Seq<Seq<char>>, line: Seq<char>, rest: Seq<char>)
    ensures
        text::trim(line) == "Cache Hits:"@ + rest ==> cache_lines(lines.push(line)) == (
            number::parse_i64(text::trim(rest)),
            cache_lines(lines).1,
        ),
        text::trim(line) == "Cache Misses:"@ + rest ==> cache_lines(lines.push(line)) == (
            cache_lines(lines).0,
            number::parse_i64(text::trim(rest)),
        ),
        !"Cache Hits:"@.is_prefix_of(text::trim(line)) && !"Cache Misses:"@.is_prefix_of(
            text::trim(line),
        ) ==> cache_lines(lines.push(line)) == cache_lines(lines),
        cache_lines(Seq::empty()) == (None::<i64>, None::<i64>),
{
    let t = text::trim(line);
    assert(lines.push(line).drop_last() == lines);
    text::law_texts_start_and_end_with_a_pattern("Cache Hits:"@, rest);
    text::law_texts_start_and_end_with_a_pattern("Cache Misses:"@, rest);
    text::law_texts_start_and_end_with_a_pattern("Cache Hits:"@, t);
    text::law_texts_start_and_end_with_a_pattern("Cache Misses:"@, t);
    assert(!text::starts("Cache Misses:"@ + rest, "Cache Hits:"@)) by {
        reveal_strlit("Cache Hits:");
        reveal_strlit("Cache Misses:");
        text::lemma_other_start("Cache Misses:"@, rest, "Cache Hits:"@, 6);
    }
}

/// What a lookup counts for.
pub open spec fn is_outcome(
    r: DnsResult,
    resolver: Seq<char>,
    host: Seq<char>,
    addresses: Option<usize>,
    elapsed_ns: u64,
) -> bool {
    &&& r.resolver@ == resolver
    &&& r.query_host@ == host
    &&& r.success == (addresses is Some && addresses->0 > 0)
    &&& r.lookup_ms == (if addresses is Some && addresses->0 > 0 {
        Some(probe::millis(elapsed_ns))
    } else {
        None
    })
}

/// Both counts, where both are told.
pub open spec fn cache_counts(lines: Seq<Seq<char>>) -> Option<DnsCacheStats> {
    match cache_lines(lines) {
        (Some(hits), Some(misses)) => Some(DnsCacheStats { hits, misses }),
        _ => None,
    }
}

/// A lookup without an address failed, and a failed one has no time. Of one that
/// succeeded the time is kept in milliseconds.
pub proof fn law_lookups_without_addresses_failed(
    r: DnsResult,
    resolver: Seq<char>,
    host: Seq<char>,
    addresses: Option<usize>,
    elapsed_ns: u64,
)
    requires
        is_outcome(r, resolver, host, addresses, elapsed_ns),
        elapsed_ns <= u64::MAX / 1000,
    ensures
        r.resolver@ == resolver && r.query_host@ == host,
        r.success <==> addresses is Some && addresses != Some(0usize),
        r.lookup_ms is Some <==> r.success,
        r.lookup_ms is Some ==> r.lookup_ms->0 * 1_000_000 == elapsed_ns * 1_000_000_000,
{
    probe::law_milliseconds_are_a_million_nanoseconds(elapsed_ns);
}

/// The counts are known where both are.
pub proof fn law_both_counts_are_needed(lines: Seq<Seq<char>>)
    ensures
        cache_counts(lines) is Some <==> cache_lines(lines).0 is Some
            && cache_lines(lines).1 is Some,
        cache_counts(lines) is Some ==> Some(cache_counts(lines)->0.hits) == cache_lines(lines).0
            && Some(cache_counts(lines)->0.misses) == cache_lines(lines).1,
{
}

} // verus!
