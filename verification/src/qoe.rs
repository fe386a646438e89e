//! Quality-of-experience scores.
//!
//! Latency, jitter and loss become a score of 0 to 100 for each kind of use.
//! A score starts at 100 and loses penalties by how sensitive the use is to
//! each impairment. Every quantity is in billionths of its unit.

use vstd::prelude::*;

use crate::probe::FULL;

verus! {

/// Scores of 0 to 100 points, in billionths of a point; higher is better.
#[derive(Clone, Copy, Debug, PartialEq, Eq, Structural)]
pub struct Qoe {
    pub gaming: u64,
    pub video_call: u64,
    pub streaming: u64,
    pub web: u64,
    pub voip: u64,
}

/// A linear penalty: 0 up to `soft` milliseconds, rising to 100 points at `hard`.
pub open spec fn penalty(v: int, soft: int, hard: int) -> int {
    let lo = soft * 1_000_000_000;
    let hi = hard * 1_000_000_000;
    if v <= lo {
        0
    } else if v >= hi {
        FULL as int
    } else {
        (v - lo) * 100 / (hard - soft)
    }
}

/// A score between 0 and 100 points.
pub open spec fn bounded(x: int) -> int {
    if x < 0 {
        0
    } else if x > FULL {
        FULL as int
    } else {
        x
    }
}

pub open spec fn gaming(latency: int, jitter: int, loss: int) -> int {
    bounded(FULL - penalty(latency, 20, 150) - penalty(jitter, 5, 50) - loss * 8)
}

pub open spec fn voip(latency: int, jitter: int, loss: int) -> int {
    bounded(FULL - penalty(latency, 150, 400) - penalty(jitter, 10, 60) - loss * 10)
}

pub open spec fn video_call(latency: int, jitter: int, loss: int) -> int {
    bounded(FULL - penalty(latency, 150, 400) - penalty(jitter, 15, 80) - loss * 9)
}

/// Latency counts half here.
pub open spec fn streaming(latency: int, loss: int) -> int {
    bounded(FULL - penalty(latency, 300, 1000) / 2 - loss * 6)
}

pub open spec fn web(latency: int, loss: int) -> int {
    bounded(FULL - penalty(latency, 100, 800) - loss * 4)
}

fn ramp(v: u64, soft: u64, hard: u64) -> (r: i128)
    requires
        soft < hard <= 1000,
    ensures
        r == penalty(v as int, soft as int, hard as int),
        0 <= r <= FULL,
{
    let lo: i128 = soft as i128 * 1_000_000_000;
    let hi: i128 = hard as i128 * 1_000_000_000;
    let v: i128 = v as i128;
    if v <= lo {
        0
    } else if v >= hi {
        FULL as i128
    } else {
        proof {
            let d = (hard - soft) as int;
            let x = (v - lo) as int;
            assert(0 <= x * 100 / d <= 100_000_000_000) by (nonlinear_arith)
                requires
                    0 < x < d * 1_000_000_000,
                    d > 0,
            ;
        }
        (v - lo) * 100 / (hard - soft) as i128
    }
}

fn clamp(x: i128) -> (r: u64)
    ensures
        r == bounded(x as int),
{
    if x < 0 {
        0
    } else if x > FULL as i128 {
        FULL
    } else {
        x as u64
    }
}

impl Qoe {
    /// The scores that latency and jitter (milliseconds) and loss (percent)
    /// give.
    pub open spec fn of(latency: int, jitter: int, loss: int) -> Qoe {
        Qoe {
            gaming: gaming(latency, jitter, loss) as u64,
            video_call: video_call(latency, jitter, loss) as u64,
            streaming: streaming(latency, loss) as u64,
            web: web(latency, loss) as u64,
            voip: voip(latency, jitter, loss) as u64,
        }
    }

    /// Scores a connection.
    pub fn score(latency_ms: u64, jitter_ms: u64, loss_pct: u64) -> (r: Qoe)
        ensures
            r == Qoe::of(latency_ms as int, jitter_ms as int, loss_pct as int),
            r.gaming == gaming(latency_ms as int, jitter_ms as int, loss_pct as int),
            r.video_call == video_call(latency_ms as int, jitter_ms as int, loss_pct as int),
            r.streaming == streaming(latency_ms as int, loss_pct as int),
            r.web == web(latency_ms as int, loss_pct as int),
            r.voip == voip(latency_ms as int, jitter_ms as int, loss_pct as int),
    {
        let full: i128 = FULL as i128;
        let loss: i128 = loss_pct as i128;
        Qoe {
            gaming: clamp(full - ramp(latency_ms, 20, 150) - ramp(jitter_ms, 5, 50) - loss * 8),
            video_call: clamp(
                full - ramp(latency_ms, 150, 400) - ramp(jitter_ms, 15, 80) - loss * 9,
            ),
            streaming: clamp(full - ramp(latency_ms, 300, 1000) / 2 - loss * 6),
            web: clamp(full - ramp(latency_ms, 100, 800) - loss * 4),
            voip: clamp(full - ramp(latency_ms, 150, 400) - ramp(jitter_ms, 10, 60) - loss * 10),
        }
    }
}

proof fn lemma_penalty(v: int, w: int, soft: int, hard: int)
    requires
        0 <= soft < hard <= 1000,
        0 <= v <= w,
    ensures
        0 <= penalty(v, soft, hard) <= penalty(w, soft, hard) <= FULL,
{
    let d = hard - soft;
    let x = v - soft * 1_000_000_000;
    let y = w - soft * 1_000_000_000;
    if x > 0 && y > 0 {
        assert(0 <= x * 100 / d <= y * 100 / d) by (nonlinear_arith)
            requires
                0 <= x <= y,
                d > 0,
        ;
        if x < d * 1_000_000_000 {
            assert(0 <= x * 100 / d <= 100_000_000_000) by (nonlinear_arith)
                requires
                    0 < x < d * 1_000_000_000,
                    d > 0,
            ;
        }
        if y < d * 1_000_000_000 {
            assert(0 <= y * 100 / d <= 100_000_000_000) by (nonlinear_arith)
                requires
                    0 < y < d * 1_000_000_000,
                    d > 0,
            ;
        }
    } else if y > 0 && y < d * 1_000_000_000 {
        assert(0 <= y * 100 / d <= 100_000_000_000) by (nonlinear_arith)
            requires
                0 < y < d * 1_000_000_000,
                d > 0,
        ;
    }
}

/// No score leaves 0 to 100, whatever was measured.
pub proof fn law_scores_never_leave_bounds(latency: u64, jitter: u64, loss: u64)
    ensures
        ({
            let q = Qoe::of(latency as int, jitter as int, loss as int);
            q.gaming <= FULL && q.voip <= FULL && q.video_call <= FULL && q.streaming <= FULL
                && q.web <= FULL
        }),
{
}

/// A worse connection never scores better: no score rises with latency, jitter
/// or loss.
pub proof fn law_worse_never_scores_better(
    latency: u64,
    jitter: u64,
    loss: u64,
    latency2: u64,
    jitter2: u64,
    loss2: u64,
)
    requires
        latency <= latency2,
        jitter <= jitter2,
        loss <= loss2,
    ensures
        ({
            let q = Qoe::of(latency as int, jitter as int, loss as int);
            let w = Qoe::of(latency2 as int, jitter2 as int, loss2 as int);
            w.gaming <= q.gaming && w.voip <= q.voip && w.video_call <= q.video_call && w.streaming
                <= q.streaming && w.web <= q.web
        }),
{
    let (a, b) = (latency as int, latency2 as int);
    let (c, d) = (jitter as int, jitter2 as int);
    lemma_penalty(a, b, 20, 150);
    lemma_penalty(a, b, 150, 400);
    lemma_penalty(a, b, 300, 1000);
    lemma_penalty(a, b, 100, 800);
    lemma_penalty(c, d, 5, 50);
    lemma_penalty(c, d, 10, 60);
    lemma_penalty(c, d, 15, 80);
}

/// Without latency or jitter to speak of and without loss every score is full.
pub proof fn law_pristine_connection_scores_full(latency: u64, jitter: u64)
    requires
        latency <= 20_000_000_000,
        jitter <= 5_000_000_000,
    ensures
        Qoe::of(latency as int, jitter as int, 0) == (Qoe {
            gaming: FULL,
            video_call: FULL,
            streaming: FULL,
            web: FULL,
            voip: FULL,
        }),
{
}

/// Voice calls never score above streaming on the same connection: they are
/// more sensitive to latency, jitter and loss.
pub proof fn law_voip_never_above_streaming(latency: u64, jitter: u64, loss: u64)
    ensures
        voip(latency as int, jitter as int, loss as int) <= streaming(latency as int, loss as int),
{
    let v = latency as int;
    lemma_penalty(v, v, 150, 400);
    lemma_penalty(v, v, 300, 1000);
    lemma_penalty(jitter as int, jitter as int, 10, 60);
    assert(penalty(v, 300, 1000) / 2 <= penalty(v, 150, 400)) by {
        let x = v - 150_000_000_000;
        let y = v - 300_000_000_000;
        if 0 < y && x < 250_000_000_000 {
            assert(y * 100 / 700 <= x * 100 / 250);
        }
    }
}

/// Gaming never scores above streaming on the same connection.
pub proof fn law_gaming_never_above_streaming(latency: u64, jitter: u64, loss: u64)
    ensures
        gaming(latency as int, jitter as int, loss as int) <= streaming(
            latency as int,
            loss as int,
        ),
{
    let v = latency as int;
    lemma_penalty(v, v, 20, 150);
    lemma_penalty(v, v, 300, 1000);
    lemma_penalty(jitter as int, jitter as int, 5, 50);
}

/// What latency alone costs: nothing up to a first limit, everything from a second
/// one on (half for streaming), and in between in proportion to how far it is on
/// its way from the one to the other. In milliseconds the limits are 20 and 150 for
/// gaming, 150 and 400 for both kinds of calls, 100 and 800 for the web, and 300
/// and 1000 for streaming.
pub proof fn law_latency_costs_in_proportion(latency: u64)
    ensures
        ({
            let q = Qoe::of(latency as int, 0, 0);
            &&& latency <= 20_000_000_000 ==> q.gaming == 100_000_000_000
            &&& latency >= 150_000_000_000 ==> q.gaming == 0
            &&& 20_000_000_000 < latency < 150_000_000_000 ==> (100_000_000_000 - q.gaming) * 130
                <= (latency - 20_000_000_000) * 100 < (100_000_000_001 - q.gaming) * 130
            &&& latency <= 150_000_000_000 ==> q.voip == 100_000_000_000
            &&& latency >= 400_000_000_000 ==> q.voip == 0
            &&& 150_000_000_000 < latency < 400_000_000_000 ==> (100_000_000_000 - q.voip) * 250
                <= (latency - 150_000_000_000) * 100 < (100_000_000_001 - q.voip) * 250
            &&& latency <= 150_000_000_000 ==> q.video_call == 100_000_000_000
            &&& latency >= 400_000_000_000 ==> q.video_call == 0
            &&& 150_000_000_000 < latency < 400_000_000_000
                ==> (100_000_000_000 - q.video_call) * 250
                <= (latency - 150_000_000_000) * 100 < (100_000_000_001 - q.video_call) * 250
            &&& latency <= 100_000_000_000 ==> q.web == 100_000_000_000
            &&& latency >= 800_000_000_000 ==> q.web == 0
            &&& 100_000_000_000 < latency < 800_000_000_000 ==> (100_000_000_000 - q.web) * 700
                <= (latency - 100_000_000_000) * 100 < (100_000_000_001 - q.web) * 700
            &&& latency <= 300_000_000_000 ==> q.streaming == 100_000_000_000
            &&& latency >= 1000_000_000_000 ==> q.streaming == 50_000_000_000
            &&& 300_000_000_000 < latency < 1000_000_000_000
                ==> (100_000_000_000 - q.streaming) * 1400
                <= (latency - 300_000_000_000) * 100 < (100_000_000_001 - q.streaming) * 1400
        }),
{
    lemma_share(latency as int, 20, 150);
    lemma_share(latency as int, 150, 400);
    lemma_share(latency as int, 150, 400);
    lemma_share(latency as int, 100, 800);
    lemma_share(latency as int, 300, 1000);
}

/// What jitter alone costs, likewise: in milliseconds from 5 to 50 for gaming, from
/// 10 to 60 for voice and from 15 to 80 for video calls. Streaming and the web do
/// not mind it.
pub proof fn law_jitter_costs_in_proportion(jitter: u64)
    ensures
        ({
            let q = Qoe::of(0, jitter as int, 0);
            &&& jitter <= 5_000_000_000 ==> q.gaming == 100_000_000_000
            &&& jitter >= 50_000_000_000 ==> q.gaming == 0
            &&& 5_000_000_000 < jitter < 50_000_000_000 ==> (100_000_000_000 - q.gaming) * 45
                <= (jitter - 5_000_000_000) * 100 < (100_000_000_001 - q.gaming) * 45
            &&& jitter <= 10_000_000_000 ==> q.voip == 100_000_000_000
            &&& jitter >= 60_000_000_000 ==> q.voip == 0
            &&& 10_000_000_000 < jitter < 60_000_000_000 ==> (100_000_000_000 - q.voip) * 50
                <= (jitter - 10_000_000_000) * 100 < (100_000_000_001 - q.voip) * 50
            &&& jitter <= 15_000_000_000 ==> q.video_call == 100_000_000_000
            &&& jitter >= 80_000_000_000 ==> q.video_call == 0
            &&& 15_000_000_000 < jitter < 80_000_000_000 ==> (100_000_000_000 - q.video_call) * 65
                <= (jitter - 15_000_000_000) * 100 < (100_000_000_001 - q.video_call) * 65
            &&& q.streaming == 100_000_000_000
            &&& q.web == 100_000_000_000
        }),
{
    lemma_share(jitter as int, 5, 50);
    lemma_share(jitter as int, 10, 60);
    lemma_share(jitter as int, 15, 80);
}

proof fn lemma_share(v: int, soft: int, hard: int)
    requires
        0 <= soft < hard <= 1000,
        0 <= v,
    ensures
        0 <= penalty(v, soft, hard) <= FULL,
        soft * 1_000_000_000 < v < hard * 1_000_000_000 ==> penalty(v, soft, hard) * (hard - soft)
            <= (v - soft * 1_000_000_000) * 100 < (penalty(v, soft, hard) + 1) * (hard - soft),
{
    lemma_penalty(v, v, soft, hard);
    let d = hard - soft;
    let x = (v - soft * 1_000_000_000) * 100;
    if x > 0 {
        assert(x / d * d <= x < (x / d + 1) * d) by (nonlinear_arith)
            requires
                d > 0,
        ;
    }
}

/// Each percent of loss costs the same whatever else is measured, until nothing is
/// left: 8 points for gaming, 10 for voice, 9 for video calls, 6 for streaming and
/// 4 for the web.
pub proof fn law_loss_costs_the_same_everywhere(latency: u64, jitter: u64, loss: u64)
    ensures
        ({
            let a = Qoe::of(latency as int, jitter as int, 0);
            let b = Qoe::of(latency as int, jitter as int, loss as int);
            &&& b.gaming == (if a.gaming > 8 * loss {
                a.gaming - 8 * loss
            } else {
                0
            })
            &&& b.voip == (if a.voip > 10 * loss {
                a.voip - 10 * loss
            } else {
                0
            })
            &&& b.video_call == (if a.video_call > 9 * loss {
                a.video_call - 9 * loss
            } else {
                0
            })
            &&& b.streaming == (if a.streaming > 6 * loss {
                a.streaming - 6 * loss
            } else {
                0
            })
            &&& b.web == (if a.web > 4 * loss {
                a.web - 4 * loss
            } else {
                0
            })
        }),
{
    lemma_share(latency as int, 20, 150);
    lemma_share(latency as int, 150, 400);
    lemma_share(latency as int, 100, 800);
    lemma_share(latency as int, 300, 1000);
    lemma_share(jitter as int, 5, 50);
    lemma_share(jitter as int, 10, 60);
    lemma_share(jitter as int, 15, 80);
}

/// What latency costs and what jitter costs add up, until nothing is left.
pub proof fn law_latency_and_jitter_add_up(latency: u64, jitter: u64)
    ensures
        ({
            let l = Qoe::of(latency as int, 0, 0);
            let j = Qoe::of(0, jitter as int, 0);
            let q = Qoe::of(latency as int, jitter as int, 0);
            &&& q.gaming == (if l.gaming + j.gaming > 100_000_000_000 {
                l.gaming + j.gaming - 100_000_000_000
            } else {
                0
            })
            &&& q.voip == (if l.voip + j.voip > 100_000_000_000 {
                l.voip + j.voip - 100_000_000_000
            } else {
                0
            })
            &&& q.video_call == (if l.video_call + j.video_call > 100_000_000_000 {
                l.video_call + j.video_call - 100_000_000_000
            } else {
                0
            })
            &&& q.streaming == (if l.streaming + j.streaming > 100_000_000_000 {
                l.streaming + j.streaming - 100_000_000_000
            } else {
                0
            })
            &&& q.web == (if l.web + j.web > 100_000_000_000 {
                l.web + j.web - 100_000_000_000
            } else {
                0
            })
        }),
{
    lemma_share(latency as int, 20, 150);
    lemma_share(latency as int, 150, 400);
    lemma_share(latency as int, 100, 800);
    lemma_share(latency as int, 300, 1000);
    lemma_share(jitter as int, 5, 50);
    lemma_share(jitter as int, 10, 60);
    lemma_share(jitter as int, 15, 80);
}

} // verus!
