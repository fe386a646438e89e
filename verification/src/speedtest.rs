//! Speed-test results, and latency under load.

use vstd::prelude::*;

use crate::number::Reading;
use crate::probe::ProbeConfig;
use crate::stats;

verus! {

/// A speed-test result. Rates are in Mbps, times in milliseconds.
#[derive(Clone, Debug, PartialEq, Eq)]
pub struct SpeedResult {
    pub download_mbps: Option<Reading>,
    pub upload_mbps: Option<Reading>,
    pub ping_ms: Option<Reading>,
    pub jitter_ms: Option<Reading>,
    pub server: Option<String>,
}

/// The server of a reported result.
pub struct LsServer {
    pub name: Option<String>,
}

/// One result object, as the tool reports it.
pub struct LsResult {
    pub ping: Option<Reading>,
    pub jitter: Option<Reading>,
    pub download: Option<Reading>,
    pub upload: Option<Reading>,
    pub server: Option<LsServer>,
}

pub open spec fn server_name(s: Option<LsServer>) -> Option<String> {
    match s {
        Some(l) => l.name,
        None => None,
    }
}

/// The first of the reported results, if there is any.
pub open spec fn is_first(results: Seq<LsResult>, r: Option<SpeedResult>) -> bool {
    match r {
        Some(s) => {
            &&& results.len() > 0
            &&& s.download_mbps == results[0].download
            &&& s.upload_mbps == results[0].upload
            &&& s.ping_ms == results[0].ping
            &&& s.jitter_ms == results[0].jitter
            &&& s.server == server_name(results[0].server)
        },
        None => results.len() == 0,
    }
}

/// The first of the reported results.
pub fn first_result(results: Vec<LsResult>) -> (r: Option<SpeedResult>)
    ensures
        is_first(results@, r),
{
    let mut results = results;
    if results.len() == 0 {
        return None;
    }
    let first = results.remove(0);
    Some(
        SpeedResult {
            download_mbps: first.download,
            upload_mbps: first.upload,
            ping_ms: first.ping,
            jitter_ms: first.jitter,
            server: match first.server {
                Some(s) => s.name,
                None => None,
            },
        },
    )
}

// ---------------------------------------------------------------------------
// Bufferbloat
// ---------------------------------------------------------------------------

/// Idle and loaded latency and the rise between them, in billionths of a
/// millisecond, with a letter grade.
#[derive(Clone, Debug, PartialEq, Eq)]
pub struct Bufferbloat {
    pub idle_ms: u64,
    pub loaded_ms: u64,
    pub increase_ms: u64,
    pub grade: String,
}

/// A speed test and its bufferbloat measurement; either may be missing.
#[derive(Clone, Debug, PartialEq, Eq)]
pub struct SpeedAndBloat {
    pub speed: Option<SpeedResult>,
    pub bufferbloat: Option<Bufferbloat>,
}

/// The grade of a latency rise: A below 30 ms, B below 60, C below 100, D below
/// 200, else F.
pub open spec fn letter(increase: int) -> Seq<char> {
    if increase < 30_000_000_000 {
        "A"@
    } else if increase < 60_000_000_000 {
        "B"@
    } else if increase < 100_000_000_000 {
        "C"@
    } else if increase < 200_000_000_000 {
        "D"@
    } else {
        "F"@
    }
}

pub fn grade(increase_ms: u64) -> (r: &'static str)
    ensures
        r@ == letter(increase_ms as int),
{
    if increase_ms < 30_000_000_000 {
        "A"
    } else if increase_ms < 60_000_000_000 {
        "B"
    } else if increase_ms < 100_000_000_000 {
        "C"
    } else if increase_ms < 200_000_000_000 {
        "D"
    } else {
        "F"
    }
}

/// How the idle baseline is probed.
pub fn idle_config() -> (r: ProbeConfig)
    ensures
        r == (ProbeConfig { count: 5, timeout_ms: 2000, gap_ms: 100, ip_version: Some(4) }),
{
    ProbeConfig { count: 5, timeout_ms: 2000, gap_ms: 100, ip_version: Some(4) }
}

/// How latency is probed, again and again, while the load runs.
pub fn loaded_config() -> (r: ProbeConfig)
    ensures
        r == (ProbeConfig { count: 1, timeout_ms: 2000, gap_ms: 0, ip_version: Some(4) }),
{
    ProbeConfig { count: 1, timeout_ms: 2000, gap_ms: 0, ip_version: Some(4) }
}

/// How much `loaded` is above `idle`, zero if it is not.
pub open spec fn rise(idle: u64, loaded: u64) -> u64 {
    if loaded > idle {
        (loaded - idle) as u64
    } else {
        0
    }
}

/// Grades the mean latency under load against the idle one. Without a baseline
/// or without a loaded sample there is nothing to grade.
pub fn bufferbloat(idle: Option<u64>, loaded: &[u64]) -> (r: Option<Bufferbloat>)
    ensures
        is_bloat(idle, loaded@, r),
{
    match (idle, stats::mean_of(loaded)) {
        (Some(idle_ms), Some(loaded_ms)) => {
            let increase_ms: u64 = if loaded_ms > idle_ms { loaded_ms - idle_ms } else { 0 };
            Some(
                Bufferbloat { idle_ms, loaded_ms, increase_ms, grade: grade(increase_ms).to_string() },
            )
        },
        _ => None,
    }
}

/// What a loaded speed-test run amounts to.
pub fn run_speedtest_bufferbloat(idle: Option<u64>, loaded: &[u64], speed: Option<SpeedResult>) -> (r:
    SpeedAndBloat)
    ensures
        r.speed == speed,
        is_bloat(idle, loaded@, r.bufferbloat),
{
    let bufferbloat = bufferbloat(idle, loaded);
    SpeedAndBloat { speed, bufferbloat }
}

/// How bad a grade is, from 0 for A to 4 for F.
pub open spec fn badness(increase: int) -> int {
    if increase < 30_000_000_000 {
        0
    } else if increase < 60_000_000_000 {
        1
    } else if increase < 100_000_000_000 {
        2
    } else if increase < 200_000_000_000 {
        3
    } else {
        4
    }
}

/// A greater rise never grades better: equal badness means the same letter, and
/// badness grows with the rise.
pub proof fn law_greater_rise_never_grades_better(a: u64, b: u64)
    requires
        a <= b,
    ensures
        badness(a as int) <= badness(b as int),
        badness(a as int) == badness(b as int) ==> letter(a as int) == letter(b as int),
{
}

/// How far the latencies under load are above the idle one, with the grade. There is
/// nothing to say without either.
pub open spec fn is_bloat(idle: Option<u64>, loaded: Seq<u64>, r: Option<Bufferbloat>) -> bool {
    match r {
        Some(b) => {
            &&& idle == Some(b.idle_ms)
            &&& stats::mean(loaded) == Some(b.loaded_ms)
            &&& b.increase_ms == rise(b.idle_ms, b.loaded_ms)
            &&& b.grade@ == letter(b.increase_ms as int)
        },
        None => idle is None || loaded.len() == 0,
    }
}

/// The latency under load is the mean of the measured ones, the increase is what it is
/// above the idle one, and the grades begin at 0, 30, 60, 100 and 200 ms of increase.
pub proof fn law_bloat_is_graded_by_the_increase(
    idle: Option<u64>,
    loaded: Seq<u64>,
    r: Option<Bufferbloat>,
)
    requires
        is_bloat(idle, loaded, r),
    ensures
        r is Some <==> idle is Some && loaded.len() > 0,
        match r {
            Some(b) => {
                let ms: int = 1_000_000_000;
                &&& b.idle_ms == idle->0
                &&& b.loaded_ms * loaded.len() <= stats::total(loaded) < (b.loaded_ms + 1)
                    * loaded.len()
                &&& b.loaded_ms >= b.idle_ms ==> b.idle_ms + b.increase_ms == b.loaded_ms
                &&& b.loaded_ms < b.idle_ms ==> b.increase_ms == 0
                &&& b.grade@ == "A"@ <==> b.increase_ms < 30 * ms
                &&& b.grade@ == "B"@ <==> 30 * ms <= b.increase_ms < 60 * ms
                &&& b.grade@ == "C"@ <==> 60 * ms <= b.increase_ms < 100 * ms
                &&& b.grade@ == "D"@ <==> 100 * ms <= b.increase_ms < 200 * ms
                &&& b.grade@ == "F"@ <==> 200 * ms <= b.increase_ms
            },
            None => true,
        },
{
    stats::law_mean_divides_the_total(loaded);
    reveal_strlit("A");
    reveal_strlit("B");
    reveal_strlit("C");
    reveal_strlit("D");
    reveal_strlit("F");
    assert("A"@[0] == 'A' && "B"@[0] == 'B' && "C"@[0] == 'C' && "D"@[0] == 'D' && "F"@[0] == 'F');
}

/// A run is reported by its first result alone, figure by figure, with the name of the
/// server where it has one.
pub proof fn law_first_result_is_reported(
    first: LsResult,
    others: Seq<LsResult>,
    r: Option<SpeedResult>,
)
    requires
        is_first(seq![first] + others, r),
    ensures
        r is Some,
        r->0.download_mbps == first.download,
        r->0.upload_mbps == first.upload,
        r->0.ping_ms == first.ping,
        r->0.jitter_ms == first.jitter,
        first.server is Some ==> r->0.server == first.server->0.name,
        first.server is None ==> r->0.server is None,
{
    assert((seq![first] + others)[0] == first);
}

} // verus!
