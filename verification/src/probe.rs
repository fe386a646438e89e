//! Connectivity probing: what a cycle of TCP connects says about a target.
//!
//! A completed connection is a success; a refused one or a timeout counts as
//! loss. Latencies are in billionths of a millisecond, loss in billionths of a
//! percent.

use vstd::prelude::*;

use crate::stats;

verus! {

/// 100 percent, in billionths.
pub const FULL: u64 = 100_000_000_000;

/// How to run one probe cycle against a target. Times are in milliseconds.
#[derive(Clone, Copy, Debug, PartialEq, Eq)]
pub struct ProbeConfig {
    /// Number of connection attempts in the cycle.
    pub count: u16,
    /// Timeout of one attempt.
    pub timeout_ms: u64,
    /// Gap between attempts.
    pub gap_ms: u64,
    /// Only addresses of this IP version (4 or 6); `None` takes either.
    pub ip_version: Option<u8>,
}

impl Default for ProbeConfig {
    fn default() -> (r: ProbeConfig)
        ensures
            r == (ProbeConfig { count: 5, timeout_ms: 2000, gap_ms: 200, ip_version: None }),
    {
        ProbeConfig { count: 5, timeout_ms: 2000, gap_ms: 200, ip_version: None }
    }
}

/// The sum of one probe cycle. Latencies are `None` on full loss.
#[derive(Clone, Copy, Debug, PartialEq, Eq)]
pub struct ProbeOutcome {
    pub sent: u16,
    pub received: u16,
    pub loss_pct: u64,
    pub rtt_min: Option<u64>,
    pub rtt_avg: Option<u64>,
    pub rtt_max: Option<u64>,
    /// Mean absolute difference of consecutive latencies; `None` below two.
    pub rtt_jitter: Option<u64>,
    /// True if at least one attempt connected.
    pub up: bool,
}

// ---------------------------------------------------------------------------
// Addresses and attempts
// ---------------------------------------------------------------------------

/// Whether a resolved address is of the wanted IP version.
pub fn wants_address(ip_version: Option<u8>, is_ipv4: bool) -> (r: bool)
    ensures
        r == is_wanted(ip_version, is_ipv4),
{
    match ip_version {
        Some(v) => if v == 4 {
            is_ipv4
        } else if v == 6 {
            !is_ipv4
        } else {
            true
        },
        None => true,
    }
}

/// What became of connecting to one address.
#[derive(Clone, Copy, Debug, PartialEq, Eq)]
pub enum Connect {
    /// Connected this long after the attempt began.
    Connected { nanos: u64 },
    /// Refused, or another error.
    Refused,
    /// No answer in time.
    TimedOut,
}

/// Where an attempt stands after the addresses tried so far.
#[derive(Clone, Copy, Debug, PartialEq, Eq)]
pub enum Attempt {
    /// The next address is to be tried.
    Open,
    /// Connected, with the latency.
    Hit { rtt: u64 },
    /// Lost: no further address is tried.
    Lost,
}

/// Billionths of a millisecond in `nanos` nanoseconds, held at `u64::MAX`.
pub open spec fn millis(nanos: u64) -> u64 {
    if nanos * 1000 <= u64::MAX {
        (nanos * 1000) as u64
    } else {
        u64::MAX
    }
}

pub fn millis_of(nanos: u64) -> (r: u64)
    ensures
        r == millis(nanos),
{
    let n: u128 = nanos as u128 * 1000;
    if n <= 0xffff_ffff_ffff_ffff {
        n as u64
    } else {
        0xffff_ffff_ffff_ffff
    }
}

/// Addresses are tried in order: a refusal goes on to the next one, a
/// connection or a timeout decides.
pub open spec fn attempt(tried: Seq<Connect>) -> Attempt
    decreases tried.len(),
{
    if tried.len() == 0 {
        Attempt::Open
    } else {
        match tried[0] {
            Connect::Connected { nanos } => Attempt::Hit { rtt: millis(nanos) },
            Connect::Refused => attempt(tried.skip(1)),
            Connect::TimedOut => Attempt::Lost,
        }
    }
}

/// Where an attempt stands after these addresses.
pub fn attempt_state(tried: &[Connect]) -> (r: Attempt)
    ensures
        r == attempt(tried@),
{
    let mut i: usize = 0;
    assert(tried@.skip(0) == tried@);
    while i < tried.len()
        invariant
            i <= tried.len(),
            attempt(tried@) == attempt(tried@.skip(i as int)),
        decreases tried.len() - i,
    {
        assert(tried@.skip(i as int).skip(1) == tried@.skip(i + 1));
        match tried[i] {
            Connect::Connected { nanos } => {
                return Attempt::Hit { rtt: millis_of(nanos) };
            },
            Connect::Refused => {},
            Connect::TimedOut => {
                return Attempt::Lost;
            },
        }
        i += 1;
    }
    Attempt::Open
}

// ---------------------------------------------------------------------------
// Summaries
// ---------------------------------------------------------------------------

/// A cycle in which nothing was received.
pub open spec fn is_down(r: ProbeOutcome, count: u16) -> bool {
    r == ProbeOutcome {
        sent: count,
        received: 0,
        loss_pct: FULL,
        rtt_min: None,
        rtt_avg: None,
        rtt_max: None,
        rtt_jitter: None,
        up: false,
    }
}

pub fn down(count: u16) -> (r: ProbeOutcome)
    ensures
        is_down(r, count),
{
    ProbeOutcome {
        sent: count,
        received: 0,
        loss_pct: FULL,
        rtt_min: None,
        rtt_avg: None,
        rtt_max: None,
        rtt_jitter: None,
        up: false,
    }
}

pub open spec fn distance(a: u64, b: u64) -> u64 {
    if a <= b {
        (b - a) as u64
    } else {
        (a - b) as u64
    }
}

/// The absolute differences of consecutive values.
pub open spec fn steps(s: Seq<u64>) -> Seq<u64> {
    Seq::new(
        if s.len() == 0 {
            0
        } else {
            (s.len() - 1) as nat
        },
        |i: int| distance(s[i], s[i + 1]),
    )
}

/// What a cycle of `sent` attempts with these latencies amounts to.
pub open spec fn summary(r: ProbeOutcome, sent: u16, rtts: Seq<u64>) -> bool {
    if rtts.len() == 0 {
        is_down(r, sent)
    } else {
        &&& r.sent == sent
        &&& r.received == rtts.len()
        &&& r.up
        &&& r.loss_pct == (sent - rtts.len()) * FULL / sent as int
        &&& r.rtt_min is Some && stats::is_least(rtts, r.rtt_min->0)
        &&& r.rtt_max is Some && stats::is_greatest(rtts, r.rtt_max->0)
        &&& r.rtt_avg == stats::mean(rtts)
        &&& r.rtt_jitter == stats::mean(steps(rtts))
    }
}

fn steps_of(s: &[u64]) -> (r: Vec<u64>)
    ensures
        r@ == steps(s@),
{
    let mut out: Vec<u64> = Vec::new();
    if s.len() < 2 {
        assert(out@ == steps(s@));
        return out;
    }
    let mut i: usize = 0;
    while i < s.len() - 1
        invariant
            2 <= s.len(),
            i <= s.len() - 1,
            out@ == steps(s@).take(i as int),
        decreases s.len() - i,
    {
        let d: u64 = if s[i] <= s[i + 1] { s[i + 1] - s[i] } else { s[i] - s[i + 1] };
        out.push(d);
        assert(out@ == steps(s@).take(i + 1));
        i += 1;
    }
    assert(out@ == steps(s@));
    out
}

/// Sums up a cycle of `sent` attempts of which these latencies came back.
pub fn summarize(sent: u16, rtts: &[u64]) -> (r: ProbeOutcome)
    requires
        rtts@.len() <= sent,
    ensures
        summary(r, sent, rtts@),
{
    if rtts.len() == 0 {
        return down(sent);
    }
    let received: u16 = rtts.len() as u16;
    let lost: u64 = (sent - received) as u64;
    let loss_pct: u64 = lost * FULL / sent as u64;
    proof {
        stats::law_minimum_is_least(rtts@);
        stats::law_maximum_is_greatest(rtts@);
    }
    ProbeOutcome {
        sent,
        received,
        loss_pct,
        rtt_min: stats::minimum_of(rtts),
        rtt_avg: stats::mean_of(rtts),
        rtt_max: stats::maximum_of(rtts),
        rtt_jitter: stats::mean_of(&steps_of(rtts)),
        up: true,
    }
}

/// The outcome of a cycle: a host that does not resolve is down, never an error.
pub fn cycle_outcome(count: u16, resolved: bool, rtts: &[u64]) -> (r: ProbeOutcome)
    requires
        rtts@.len() <= count,
    ensures
        resolved ==> summary(r, count, rtts@),
        !resolved ==> is_down(r, count),
{
    if resolved {
        summarize(count, rtts)
    } else {
        down(count)
    }
}

/// In every cycle loss is at most 100 percent, latencies are present exactly
/// when the target is up, and the mean lies between the extremes.
pub proof fn law_outcomes_are_consistent(r: ProbeOutcome, sent: u16, rtts: Seq<u64>)
    requires
        rtts.len() <= sent,
        summary(r, sent, rtts),
    ensures
        r.loss_pct <= FULL,
        r.up == (r.received > 0),
        r.up == (r.rtt_avg is Some),
        r.up == (r.rtt_min is Some),
        r.up == (r.rtt_max is Some),
        r.rtt_jitter is Some <==> r.received >= 2,
        r.received == r.sent && r.sent > 0 ==> r.loss_pct == 0,
        r.received == 0 ==> r.loss_pct == FULL,
        r.up ==> r.rtt_min->0 <= r.rtt_avg->0 <= r.rtt_max->0,
{
    if rtts.len() > 0 {
        stats::lemma_mean_between(rtts, r.rtt_min->0, r.rtt_max->0);
        let lost = sent - rtts.len();
        assert(0 <= lost * FULL / sent as int <= FULL) by (nonlinear_arith)
            requires
                0 <= lost <= sent,
                sent > 0,
        ;
        if lost == 0 {
            assert(lost * FULL / sent as int == 0) by (nonlinear_arith)
                requires
                    lost == 0,
                    sent > 0,
            ;
        }
    }
}

/// What a cycle's figures are, over what was sent and what came back: loss is the
/// share that did not come back, the extremes are latencies that bound all others,
/// the mean shares the total out evenly, and jitter is the mean of the changes
/// from one latency to the next.
pub proof fn law_figures_sum_up_the_replies(r: ProbeOutcome, sent: u16, rtts: Seq<u64>)
    requires
        rtts.len() <= sent,
        summary(r, sent, rtts),
    ensures
        r.sent == sent,
        r.received == rtts.len(),
        r.up <==> rtts.len() > 0,
        rtts.len() == 0 ==> r.loss_pct == 100_000_000_000 && r.rtt_min is None && r.rtt_avg is None
            && r.rtt_max is None && r.rtt_jitter is None,
        rtts.len() > 0 ==> {
            &&& r.loss_pct * sent <= (sent - rtts.len()) * 100_000_000_000 < (r.loss_pct + 1) * sent
            &&& r.rtt_min is Some && rtts.contains(r.rtt_min->0)
            &&& r.rtt_max is Some && rtts.contains(r.rtt_max->0)
            &&& forall|i: int|
                0 <= i < rtts.len() ==> r.rtt_min->0 <= #[trigger] rtts[i] <= r.rtt_max->0
            &&& r.rtt_avg is Some
            &&& r.rtt_avg->0 * rtts.len() <= stats::total(rtts) < (r.rtt_avg->0 + 1) * rtts.len()
        },
        rtts.len() < 2 ==> r.rtt_jitter is None,
        rtts.len() >= 2 ==> {
            let changes = Seq::new(
                (rtts.len() - 1) as nat,
                |i: int|
                    if rtts[i] <= rtts[i + 1] {
                        (rtts[i + 1] - rtts[i]) as u64
                    } else {
                        (rtts[i] - rtts[i + 1]) as u64
                    },
            );
            &&& r.rtt_jitter is Some
            &&& r.rtt_jitter->0 * (rtts.len() - 1) <= stats::total(changes) < (r.rtt_jitter->0 + 1)
                * (rtts.len() - 1)
        },
{
    stats::law_mean_divides_the_total(rtts);
    stats::law_mean_divides_the_total(steps(rtts));
    if rtts.len() > 0 {
        let lost = (sent - rtts.len()) as int;
        let n = sent as int;
        let all = lost * 100_000_000_000;
        assert(all / n * n <= all < (all / n + 1) * n) by (nonlinear_arith)
            requires
                n > 0,
                all >= 0,
        ;
    }
    if rtts.len() >= 2 {
        let changes = Seq::new(
            (rtts.len() - 1) as nat,
            |i: int|
                if rtts[i] <= rtts[i + 1] {
                    (rtts[i + 1] - rtts[i]) as u64
                } else {
                    (rtts[i] - rtts[i + 1]) as u64
                },
        );
        assert(steps(rtts) =~= changes);
    }
}

/// Of the addresses of a host, the first that does not refuse decides: a
/// connection gives its time, in billionths of a millisecond, and a timeout loses
/// the attempt. What stands behind it changes nothing, and while all refuse the
/// attempt stays open.
pub proof fn law_first_answer_decides(refused: nat, nanos: u64, rest: Seq<Connect>)
    requires
        nanos <= 18_000_000_000_000_000,
    ensures
        ({
            let before = Seq::new(refused, |i: int| Connect::Refused);
            &&& attempt(before) == Attempt::Open
            &&& attempt(before.push(Connect::Connected { nanos }) + rest) == (Attempt::Hit {
                rtt: (nanos * 1000) as u64,
            })
            &&& attempt(before.push(Connect::TimedOut) + rest) == Attempt::Lost
        }),
    decreases refused,
{
    let before = Seq::new(refused, |i: int| Connect::Refused);
    let a = before.push(Connect::Connected { nanos }) + rest;
    let b = before.push(Connect::TimedOut) + rest;
    if refused > 0 {
        let less = Seq::new((refused - 1) as nat, |i: int| Connect::Refused);
        law_first_answer_decides((refused - 1) as nat, nanos, rest);
        assert(before.skip(1) == less);
        assert(a.skip(1) == less.push(Connect::Connected { nanos }) + rest);
        assert(b.skip(1) == less.push(Connect::TimedOut) + rest);
        assert(a[0] == Connect::Refused && b[0] == Connect::Refused);
    } else {
        assert(a[0] == (Connect::Connected { nanos }));
        assert(b[0] == Connect::TimedOut);
    }
}

/// Whether an address is one of the wanted version.
pub open spec fn is_wanted(ip_version: Option<u8>, is_ipv4: bool) -> bool {
    if ip_version == Some(4u8) {
        is_ipv4
    } else if ip_version == Some(6u8) {
        !is_ipv4
    } else {
        true
    }
}

/// A probe of the fourth version takes no address of the sixth and the other way round;
/// without a version every address is taken.
pub proof fn law_addresses_match_the_version(is_ipv4: bool)
    ensures
        is_wanted(Some(4), is_ipv4) <==> is_ipv4,
        is_wanted(Some(6), is_ipv4) <==> !is_ipv4,
        is_wanted(None, is_ipv4),
        forall|v: u8| v != 4 && v != 6 ==> #[trigger] is_wanted(Some(v), is_ipv4),
{
}

/// A million nanoseconds are a millisecond, as long as the number holds it.
pub proof fn law_milliseconds_are_a_million_nanoseconds(nanos: u64)
    ensures
        nanos <= u64::MAX / 1000 ==> millis(nanos) * 1_000_000 == nanos * 1_000_000_000,
        nanos > u64::MAX / 1000 ==> millis(nanos) == u64::MAX,
{
}

/// A target that is down answered none of the probes and lost them all.
pub proof fn law_down_means_all_lost(r: ProbeOutcome, count: u16)
    requires
        is_down(r, count),
    ensures
        r.sent == count,
        r.received == 0,
        r.loss_pct == 100 * 1_000_000_000,
        !r.up,
        r.rtt_min is None && r.rtt_avg is None && r.rtt_max is None && r.rtt_jitter is None,
{
}

} // verus!
