//! Reading the summary that the system `ping` tool prints.
//!
//! The gateway is measured with `ping`, because routers refuse TCP and a
//! connect probe would read as full loss even when the gateway is healthy.

use vstd::prelude::*;

use crate::number;
use crate::number::Reading;
use crate::text;

verus! {

/// What a ping run reported. Times are in milliseconds and absent on full loss.
#[derive(Clone, Copy, Debug, PartialEq, Eq)]
pub struct PingResult {
    pub sent: u32,
    pub received: u32,
    pub loss_pct: Reading,
    pub rtt_min: Option<Reading>,
    pub rtt_avg: Option<Reading>,
    pub rtt_max: Option<Reading>,
}

/// 100 percent.
pub open spec fn full_loss() -> Reading {
    Reading { billionths: 100_000_000_000 }
}

/// What is known before any line was read.
pub open spec fn nothing_read() -> PingResult {
    PingResult {
        sent: 0,
        received: 0,
        loss_pct: full_loss(),
        rtt_min: None,
        rtt_avg: None,
        rtt_max: None,
    }
}

fn nothing() -> (r: PingResult)
    ensures
        r == nothing_read(),
{
    PingResult {
        sent: 0,
        received: 0,
        loss_pct: Reading { billionths: 100_000_000_000 },
        rtt_min: None,
        rtt_avg: None,
        rtt_max: None,
    }
}

/// The first word of `s` as a count, zero if it is none.
pub open spec fn leading_count(s: Seq<char>) -> u32 {
    let w = text::words(s);
    if w.len() > 0 {
        number::parse_u32(w[0]).unwrap_or(0)
    } else {
        0
    }
}

fn read_leading_count(s: &[char]) -> (r: u32)
    ensures
        r == leading_count(s@),
{
    let w = text::split_words(s);
    let ghost v = text::words(s@);
    assert(w@.len() == v.len());
    if w.len() > 0 {
        assert(v[0] == w@[0]@);
        match number::read_u32(w[0]) {
            Some(n) => n,
            None => 0,
        }
    } else {
        0
    }
}

/// The percentage before the first `%`, full loss if it cannot be read.
pub open spec fn percent(s: Seq<char>) -> Reading {
    number::reading(text::trim(s.take(text::until(s, '%') as int))).unwrap_or(full_loss())
}

fn read_percent(s: &[char]) -> (r: Reading)
    ensures
        r == percent(s@),
{
    let n: usize = text::index_of(s, '%');
    let head = &s[0..n];
    assert(head@ == s@.take(n as int));
    match number::read_decimal(text::trimmed(head)) {
        Some(v) => v,
        None => Reading { billionths: 100_000_000_000 },
    }
}

/// The first of the parts that holds `p`.
pub open spec fn first_with(parts: Seq<Seq<char>>, p: Seq<char>) -> Option<Seq<char>>
    decreases parts.len(),
{
    if parts.len() == 0 {
        None
    } else if text::contains(parts[0], p) {
        Some(parts[0])
    } else {
        first_with(parts.skip(1), p)
    }
}

/// What stands between the first and the second ` = `.
pub open spec fn after_equals(s: Seq<char>) -> Option<Seq<char>> {
    match text::find(s, " = "@) {
        Some(i) => {
            let rest = s.skip(i as int + " = "@.len());
            match text::find(rest, " = "@) {
                Some(j) => Some(rest.take(j as int)),
                None => Some(rest),
            }
        },
        None => None,
    }
}

fn read_after_equals<'a>(s: &'a [char]) -> (r: Option<&'a [char]>)
    ensures
        text::opt_view(r) == after_equals(s@),
{
    proof {
        reveal_strlit(" = ");
        assert(" = "@.len() == 3);
    }
    let n: usize = s.len();
    match text::find_str(s, " = ") {
        Some(i) => {
            let rest = &s[i + 3..n];
            assert(rest@ == s@.skip(i + 3));
            match text::find_str(rest, " = ") {
                Some(j) => {
                    let head = &rest[0..j];
                    assert(head@ == rest@.take(j as int));
                    Some(head)
                },
                None => Some(rest),
            }
        },
        None => None,
    }
}

/// The `i`-th of the parts as a decimal.
pub open spec fn part_reading(parts: Seq<Seq<char>>, i: int) -> Option<Reading> {
    if i < parts.len() {
        number::reading(text::trim(parts[i]))
    } else {
        None
    }
}

fn read_part(parts: &Vec<&[char]>, i: usize) -> (r: Option<Reading>)
    ensures
        r == part_reading(text::views(parts@), i as int),
{
    if i < parts.len() {
        assert(text::views(parts@)[i as int] == parts@[i as int]@);
        number::read_decimal(text::trimmed(parts[i]))
    } else {
        None
    }
}

// ---------------------------------------------------------------------------
// Linux and BSD
// ---------------------------------------------------------------------------

/// The counts of a line such as
/// `3 packets transmitted, 2 received, 33% packet loss, time 2003ms`.
pub open spec fn unix_counts(r: PingResult, line: Seq<char>) -> PingResult {
    if text::contains(line, "packets transmitted"@) {
        let nums = text::split(line, ',');
        PingResult {
            sent: leading_count(nums[0]),
            received: if nums.len() > 1 {
                leading_count(nums[1])
            } else {
                0
            },
            loss_pct: match first_with(nums, "packet loss"@) {
                Some(l) => percent(text::trim(l)),
                None => r.loss_pct,
            },
            ..r
        }
    } else {
        r
    }
}

/// The times of a line such as `rtt min/avg/max/mdev = 0.3/0.34/0.4/0.04 ms`.
pub open spec fn unix_times(r: PingResult, line: Seq<char>) -> PingResult {
    match after_equals(line) {
        Some(rest) if text::contains(line, "min/avg/max"@) => {
            let parts = text::split(rest, '/');
            PingResult {
                rtt_min: part_reading(parts, 0),
                rtt_avg: part_reading(parts, 1),
                rtt_max: part_reading(parts, 2),
                ..r
            }
        },
        _ => r,
    }
}

/// What is known after the given lines: each later line overrides.
pub open spec fn unix_summary(lines: Seq<Seq<char>>) -> PingResult
    decreases lines.len(),
{
    if lines.len() == 0 {
        nothing_read()
    } else {
        unix_times(unix_counts(unix_summary(lines.drop_last()), lines.last()), lines.last())
    }
}

/// A summary counts only if something was sent.
pub open spec fn if_sent(r: PingResult) -> Option<PingResult> {
    if r.sent == 0 {
        None
    } else {
        Some(r)
    }
}

fn read_unix_counts(r: PingResult, line: &[char]) -> (out: PingResult)
    ensures
        out == unix_counts(r, line@),
{
    if !text::has(line, "packets transmitted") {
        return r;
    }
    let nums = text::pieces(line, ',');
    let ghost v = text::split(line@, ',');
    assert(nums@.len() == v.len());
    assert(v[0] == nums@[0]@);
    let sent: u32 = read_leading_count(nums[0]);
    let received: u32 = if nums.len() > 1 {
        assert(v[1] == nums@[1]@);
        read_leading_count(nums[1])
    } else {
        0
    };
    let mut loss: Reading = r.loss_pct;
    let mut i: usize = 0;
    let mut found = false;
    assert(v.skip(0) == v);
    while i < nums.len() && !found
        invariant
            i <= nums.len(),
            text::views(nums@) == v,
            !found ==> loss == r.loss_pct && first_with(v, "packet loss"@) == first_with(
                v.skip(i as int),
                "packet loss"@,
            ),
            found ==> first_with(v, "packet loss"@) is Some && loss == percent(
                text::trim(first_with(v, "packet loss"@)->0),
            ),
        decreases nums.len() - i + if found { 0int } else { 1 },
    {
        assert(v.skip(i as int)[0] == nums@[i as int]@);
        assert(v.skip(i as int).skip(1) == v.skip(i + 1));
        if text::has(nums[i], "packet loss") {
            loss = read_percent(text::trimmed(nums[i]));
            found = true;
        } else {
            i += 1;
        }
    }
    PingResult {
        sent,
        received,
        loss_pct: loss,
        rtt_min: r.rtt_min,
        rtt_avg: r.rtt_avg,
        rtt_max: r.rtt_max,
    }
}

fn read_unix_times(r: PingResult, line: &[char]) -> (out: PingResult)
    ensures
        out == unix_times(r, line@),
{
    match read_after_equals(line) {
        Some(rest) => {
            if !text::has(line, "min/avg/max") {
                return r;
            }
            let parts = text::pieces(rest, '/');
            PingResult {
                sent: r.sent,
                received: r.received,
                loss_pct: r.loss_pct,
                rtt_min: read_part(&parts, 0),
                rtt_avg: read_part(&parts, 1),
                rtt_max: read_part(&parts, 2),
            }
        },
        None => r,
    }
}

/// Reads a Linux or BSD `ping` summary; `None` if it reports no packet sent.
pub fn parse_unix_ping(text: &str) -> (r: Option<PingResult>)
    ensures
        r == if_sent(unix_summary(text::lines(text@))),
{
    let all = text::chars(text);
    let lines = text::split_lines(&all);
    let ghost v = text::lines(text@);
    let mut out: PingResult = nothing();
    let mut i: usize = 0;
    while i < lines.len()
        invariant
            i <= lines.len(),
            text::views(lines@) == v,
            out == unix_summary(v.take(i as int)),
        decreases lines.len() - i,
    {
        assert(v.take(i + 1).drop_last() == v.take(i as int));
        assert(v.take(i + 1).last() == lines@[i as int]@);
        out = read_unix_times(read_unix_counts(out, lines[i]), lines[i]);
        i += 1;
    }
    assert(v.take(lines@.len() as int) == v);
    if out.sent == 0 {
        None
    } else {
        Some(out)
    }
}

// ---------------------------------------------------------------------------
// Windows
// ---------------------------------------------------------------------------

/// A count, zero if it cannot be read.
pub open spec fn count(s: Seq<char>) -> u32 {
    number::parse_u32(text::trim(s)).unwrap_or(0)
}

fn read_count(s: &[char]) -> (r: u32)
    ensures
        r == count(s@),
{
    match number::read_u32(text::trimmed(s)) {
        Some(n) => n,
        None => 0,
    }
}

/// One part of a line such as
/// `Packets: Sent = 4, Received = 4, Lost = 0 (0% loss),`.
pub open spec fn packets_part(r: PingResult, part: Seq<char>) -> PingResult {
    let p = text::trim(part);
    match text::after_prefix(p, "Sent = "@) {
        Some(v) => PingResult { sent: count(v), ..r },
        None => match text::after_prefix(p, "Received = "@) {
            Some(v) => PingResult { received: count(v), ..r },
            None => {
                let in_brackets = text::split(p, '(');
                if p.contains('%') && in_brackets.len() > 1 {
                    PingResult { loss_pct: percent(in_brackets[1]), ..r }
                } else {
                    r
                }
            },
        },
    }
}

pub open spec fn packets_parts(r: PingResult, parts: Seq<Seq<char>>) -> PingResult
    decreases parts.len(),
{
    if parts.len() == 0 {
        r
    } else {
        packets_part(packets_parts(r, parts.drop_last()), parts.last())
    }
}

/// The number of `Minimum = 0ms`.
pub open spec fn time_value(p: Seq<char>) -> Option<Reading> {
    let sides = text::split(p, '=');
    if sides.len() > 1 {
        number::reading(text::trim(text::trim_end_str(text::trim(sides[1]), "ms"@)))
    } else {
        None
    }
}

/// One part of a line such as `Minimum = 0ms, Maximum = 2ms, Average = 1ms`.
pub open spec fn times_part(r: PingResult, part: Seq<char>) -> PingResult {
    let p = text::trim(part);
    if text::starts(p, "Minimum"@) {
        PingResult { rtt_min: time_value(p), ..r }
    } else if text::starts(p, "Maximum"@) {
        PingResult { rtt_max: time_value(p), ..r }
    } else if text::starts(p, "Average"@) {
        PingResult { rtt_avg: time_value(p), ..r }
    } else {
        r
    }
}

pub open spec fn times_parts(r: PingResult, parts: Seq<Seq<char>>) -> PingResult
    decreases parts.len(),
{
    if parts.len() == 0 {
        r
    } else {
        times_part(times_parts(r, parts.drop_last()), parts.last())
    }
}

pub open spec fn windows_counts(r: PingResult, line: Seq<char>) -> PingResult {
    let l = text::trim(line);
    if text::starts(l, "Packets:"@) {
        packets_parts(r, text::split(text::trim_start_str(l, "Packets:"@), ','))
    } else {
        r
    }
}

pub open spec fn windows_times(r: PingResult, line: Seq<char>) -> PingResult {
    let l = text::trim(line);
    if text::starts(l, "Minimum"@) {
        times_parts(r, text::split(l, ','))
    } else {
        r
    }
}

/// What is known after the given lines: each later line overrides.
pub open spec fn windows_summary(lines: Seq<Seq<char>>) -> PingResult
    decreases lines.len(),
{
    if lines.len() == 0 {
        nothing_read()
    } else {
        windows_times(windows_counts(windows_summary(lines.drop_last()), lines.last()), lines.last())
    }
}

fn read_packets_part(r: PingResult, part: &[char]) -> (out: PingResult)
    ensures
        out == packets_part(r, part@),
{
    let mut out: PingResult = r;
    let p = text::trimmed(part);
    if let Some(v) = text::strip_prefix(p, "Sent = ") {
        out.sent = read_count(v);
    } else if let Some(v) = text::strip_prefix(p, "Received = ") {
        out.received = read_count(v);
    } else if text::has_char(p, '%') {
        let b = text::pieces(p, '(');
        let ghost v = text::split(p@, '(');
        assert(b@.len() == v.len());
        if b.len() > 1 {
            assert(v[1] == b@[1]@);
            out.loss_pct = read_percent(b[1]);
        }
    }
    out
}

fn read_time_value(p: &[char]) -> (r: Option<Reading>)
    ensures
        r == time_value(p@),
{
    let sides = text::pieces(p, '=');
    let ghost v = text::split(p@, '=');
    assert(sides@.len() == v.len());
    if sides.len() > 1 {
        assert(v[1] == sides@[1]@);
        proof {
            reveal_strlit("ms");
            assert("ms"@.len() == 2);
        }
        number::read_decimal(text::trimmed(text::strip_end_all(text::trimmed(sides[1]), "ms")))
    } else {
        None
    }
}

fn read_times_part(r: PingResult, part: &[char]) -> (out: PingResult)
    ensures
        out == times_part(r, part@),
{
    let mut out: PingResult = r;
    let p = text::trimmed(part);
    if text::starts_with(p, "Minimum") {
        out.rtt_min = read_time_value(p);
    } else if text::starts_with(p, "Maximum") {
        out.rtt_max = read_time_value(p);
    } else if text::starts_with(p, "Average") {
        out.rtt_avg = read_time_value(p);
    }
    out
}

fn read_windows_line(r: PingResult, line: &[char]) -> (out: PingResult)
    ensures
        out == windows_times(windows_counts(r, line@), line@),
{
    let l = text::trimmed(line);
    let mut out: PingResult = r;
    if text::starts_with(l, "Packets:") {
        proof {
            reveal_strlit("Packets:");
            assert("Packets:"@.len() == 8);
        }
        let parts = text::pieces(text::strip_start_all(l, "Packets:"), ',');
        let ghost v = text::views(parts@);
        let mut i: usize = 0;
        while i < parts.len()
            invariant
                i <= parts.len(),
                v == text::views(parts@),
                out == packets_parts(r, v.take(i as int)),
            decreases parts.len() - i,
        {
            assert(v.take(i + 1).drop_last() == v.take(i as int));
            assert(v.take(i + 1).last() == parts@[i as int]@);
            out = read_packets_part(out, parts[i]);
            i += 1;
        }
        assert(v.take(parts@.len() as int) == v);
    }
    assert(out == windows_counts(r, line@));
    if text::starts_with(l, "Minimum") {
        let ghost before = out;
        let parts = text::pieces(l, ',');
        let ghost v = text::views(parts@);
        let mut i: usize = 0;
        while i < parts.len()
            invariant
                i <= parts.len(),
                v == text::views(parts@),
                out == times_parts(before, v.take(i as int)),
            decreases parts.len() - i,
        {
            assert(v.take(i + 1).drop_last() == v.take(i as int));
            assert(v.take(i + 1).last() == parts@[i as int]@);
            out = read_times_part(out, parts[i]);
            i += 1;
        }
        assert(v.take(parts@.len() as int) == v);
    }
    out
}

/// Reads a Windows `ping` summary; `None` if it reports no packet sent.
pub fn parse_windows_ping(text: &str) -> (r: Option<PingResult>)
    ensures
        r == if_sent(windows_summary(text::lines(text@))),
{
    let all = text::chars(text);
    let lines = text::split_lines(&all);
    let ghost v = text::lines(text@);
    let mut out: PingResult = nothing();
    let mut i: usize = 0;
    while i < lines.len()
        invariant
            i <= lines.len(),
            text::views(lines@) == v,
            out == windows_summary(v.take(i as int)),
        decreases lines.len() - i,
    {
        assert(v.take(i + 1).drop_last() == v.take(i as int));
        assert(v.take(i + 1).last() == lines@[i as int]@);
        out = read_windows_line(out, lines[i]);
        i += 1;
    }
    assert(v.take(lines@.len() as int) == v);
    if out.sent == 0 {
        None
    } else {
        Some(out)
    }
}

/// The arguments of a `ping` run that sends `count` packets to `host`.
pub fn ping_args(windows: bool, count: u16, host: &str) -> (r: Vec<String>)
    ensures
        r@.map_values(|s: String| s@) == arguments(windows, count, host@),
{
    let n = number::u64_text(count as u64);
    let mut out: Vec<String> = Vec::new();
    if windows {
        out.push("-n".to_string());
        out.push(n);
        out.push(host.to_string());
    } else {
        out.push("-n".to_string());
        out.push("-c".to_string());
        out.push(n);
        out.push("-W".to_string());
        out.push("1".to_string());
        out.push(host.to_string());
    }
    out
}

/// A line with the counts gives what was sent, received and lost, one with the times gives
/// the least, the mean and the greatest. Other lines give nothing.
pub proof fn law_summary_lines_give_the_figures(lines: Seq<Seq<char>>, line: Seq<char>)
    ensures
        ({
            let before = unix_summary(lines);
            let after = unix_summary(lines.push(line));
            let counted = text::contains(line, "packets transmitted"@);
            let timed = text::contains(line, "min/avg/max"@) && after_equals(line) is Some;
            let parts = text::split(line, ',');
            let times = text::split(after_equals(line)->0, '/');
            &&& !counted ==> after.sent == before.sent && after.received == before.received
                && after.loss_pct == before.loss_pct
            &&& !timed ==> after.rtt_min == before.rtt_min && after.rtt_avg == before.rtt_avg
                && after.rtt_max == before.rtt_max
            &&& counted ==> {
                &&& after.sent == leading_count(parts[0])
                &&& parts.len() > 1 ==> after.received == leading_count(parts[1])
                &&& parts.len() <= 1 ==> after.received == 0
                &&& match first_with(parts, "packet loss"@) {
                    Some(p) => after.loss_pct == percent(text::trim(p)),
                    None => after.loss_pct == before.loss_pct,
                }
            }
            &&& timed ==> {
                &&& after.rtt_min == part_reading(times, 0)
                &&& after.rtt_avg == part_reading(times, 1)
                &&& after.rtt_max == part_reading(times, 2)
            }
        }),
{
    assert(lines.push(line).drop_last() == lines);
}

/// Before any line nothing was sent and all is lost. A ping that sent nothing is none.
pub proof fn law_nothing_sent_is_no_ping(r: PingResult)
    ensures
        unix_summary(Seq::empty()) == nothing_read(),
        windows_summary(Seq::empty()) == nothing_read(),
        nothing_read().sent == 0 && nothing_read().received == 0,
        nothing_read().loss_pct.billionths == 100 * 1_000_000_000,
        nothing_read().rtt_min is None && nothing_read().rtt_avg is None
            && nothing_read().rtt_max is None,
        if_sent(r) is None <==> r.sent == 0,
        if_sent(r) is Some ==> if_sent(r)->0 == r,
{
}

/// A count is the first word of a part, and nothing where that is no number.
pub proof fn law_counts_lead_their_part(word: Seq<char>, rest: Seq<char>)
    requires
        word.len() > 0,
        forall|i: int| 0 <= i < word.len() ==> !text::is_space(#[trigger] word[i]),
    ensures
        leading_count(word + seq![' '] + rest) == (match number::parse_u32(word) {
            Some(n) => n,
            None => 0,
        }),
        leading_count(seq![' '] + (word + seq![' '] + rest)) == leading_count(
            word + seq![' '] + rest,
        ),
{
    text::law_words_are_cut_at_white_space(word, ' ', rest);
    text::law_words_are_cut_at_white_space(word, ' ', word + seq![' '] + rest);
}

/// A loss is the number before the first percent sign, and all where that is no number.
pub proof fn law_loss_stands_before_the_sign(s: Seq<char>, rest: Seq<char>)
    requires
        !s.contains('%'),
    ensures
        percent(s + seq!['%'] + rest) == (match number::reading(text::trim(s)) {
            Some(r) => r,
            None => Reading { billionths: 100_000_000_000 },
        }),
{
    text::law_texts_are_split_at_every_separator(s, '%', rest);
    text::lemma_split_nonempty(s + seq!['%'] + rest, '%');
    assert((seq![s] + text::split(rest, '%'))[0] == s);
}

/// Each part of the counts gives one figure and leaves the others.
#[verifier::rlimit(40)]
pub proof fn law_parts_give_one_count(r: PingResult, part: Seq<char>, rest: Seq<char>)
    ensures
        ({
            let p = text::trim(part);
            let after = packets_part(r, part);
            let n = match number::parse_u32(text::trim(rest)) {
                Some(n) => n,
                None => 0,
            };
            &&& p == "Sent = "@ + rest ==> after == (PingResult { sent: n, ..r })
            &&& p == "Received = "@ + rest ==> after == (PingResult { received: n, ..r })
            &&& !"Sent = "@.is_prefix_of(p) && !"Received = "@.is_prefix_of(p) ==> {
                &&& after == (PingResult { loss_pct: after.loss_pct, ..r })
                &&& p.contains('%') && text::split(p, '(').len() > 1 ==> after.loss_pct == percent(
                    text::split(p, '(')[1],
                )
                &&& !p.contains('%') ==> after.loss_pct == r.loss_pct
            }
        }),
{
    let p = text::trim(part);
    text::law_texts_start_and_end_with_a_pattern("Sent = "@, rest);
    text::law_texts_start_and_end_with_a_pattern("Received = "@, rest);
    text::law_texts_start_and_end_with_a_pattern("Sent = "@, p);
    text::law_texts_start_and_end_with_a_pattern("Received = "@, p);
    assert(!text::starts("Received = "@ + rest, "Sent = "@)) by {
        reveal_strlit("Received = ");
        reveal_strlit("Sent = ");
        text::lemma_other_start("Received = "@, rest, "Sent = "@, 0);
    }
}

/// Each part of the times gives one figure, by its first word, and leaves the others.
#[verifier::rlimit(40)]
pub proof fn law_parts_give_one_time(r: PingResult, part: Seq<char>, rest: Seq<char>)
    ensures
        ({
            let p = text::trim(part);
            let after = times_part(r, part);
            &&& p == "Minimum"@ + rest ==> after == (PingResult { rtt_min: time_value(p), ..r })
            &&& p == "Maximum"@ + rest ==> after == (PingResult { rtt_max: time_value(p), ..r })
            &&& p == "Average"@ + rest ==> after == (PingResult { rtt_avg: time_value(p), ..r })
            &&& !"Minimum"@.is_prefix_of(p) && !"Maximum"@.is_prefix_of(p)
                && !"Average"@.is_prefix_of(p) ==> after == r
        }),
{
    let p = text::trim(part);
    text::law_texts_start_and_end_with_a_pattern("Minimum"@, rest);
    text::law_texts_start_and_end_with_a_pattern("Maximum"@, rest);
    text::law_texts_start_and_end_with_a_pattern("Average"@, rest);
    text::law_texts_start_and_end_with_a_pattern("Minimum"@, p);
    text::law_texts_start_and_end_with_a_pattern("Maximum"@, p);
    text::law_texts_start_and_end_with_a_pattern("Average"@, p);
    assert(!text::starts("Maximum"@ + rest, "Minimum"@)) by {
        reveal_strlit("Maximum");
        reveal_strlit("Minimum");
        text::lemma_other_start("Maximum"@, rest, "Minimum"@, 1);
    }
    assert(!text::starts("Average"@ + rest, "Minimum"@)) by {
        reveal_strlit("Average");
        reveal_strlit("Minimum");
        text::lemma_other_start("Average"@, rest, "Minimum"@, 0);
    }
    assert(!text::starts("Average"@ + rest, "Maximum"@)) by {
        reveal_strlit("Average");
        reveal_strlit("Maximum");
        text::lemma_other_start("Average"@, rest, "Maximum"@, 0);
    }
}

/// A time stands behind the equals sign, with or without its unit.
pub proof fn law_times_stand_behind_the_sign(name: Seq<char>, value: Seq<char>)
    requires
        !name.contains('='),
        !value.contains('='),
    ensures
        time_value(name + seq!['='] + value) == number::reading(
            text::trim(text::trim_end_str(text::trim(value), "ms"@)),
        ),
        time_value(name) is None,
{
    text::law_texts_are_split_at_every_separator(name, '=', value);
    text::law_texts_are_split_at_every_separator(value, '=', value);
    assert((seq![name] + seq![value])[1] == value);
}

/// Parts are read one after the other.
pub proof fn law_parts_are_read_in_order(r: PingResult, parts: Seq<Seq<char>>, part: Seq<char>)
    ensures
        packets_parts(r, parts.push(part)) == packets_part(packets_parts(r, parts), part),
        times_parts(r, parts.push(part)) == times_part(times_parts(r, parts), part),
        packets_parts(r, Seq::empty()) == r,
        times_parts(r, Seq::empty()) == r,
{
    assert(parts.push(part).drop_last() == parts);
}

/// The counts stand on the line that starts with "Packets:", the times on the one that
/// starts with "Minimum". Other lines give nothing.
pub proof fn law_windows_lines_give_the_figures(
    lines: Seq<Seq<char>>,
    line: Seq<char>,
    rest: Seq<char>,
)
    ensures
        ({
            let l = text::trim(line);
            let before = windows_summary(lines);
            let after = windows_summary(lines.push(line));
            &&& l == "Packets:"@ + rest && !text::starts(rest, "Packets:"@) ==> after
                == packets_parts(before, text::split(rest, ','))
            &&& l == "Minimum"@ + rest ==> after == times_parts(before, text::split(l, ','))
            &&& !"Packets:"@.is_prefix_of(l) && !"Minimum"@.is_prefix_of(l) ==> after == before
        }),
{
    let l = text::trim(line);
    assert(lines.push(line).drop_last() == lines);
    text::law_texts_start_and_end_with_a_pattern("Packets:"@, rest);
    text::law_texts_start_and_end_with_a_pattern("Minimum"@, rest);
    text::law_texts_start_and_end_with_a_pattern("Packets:"@, l);
    text::law_texts_start_and_end_with_a_pattern("Minimum"@, l);
    assert(!text::starts("Packets:"@ + rest, "Minimum"@) && !text::starts(
        "Minimum"@ + rest,
        "Packets:"@,
    ) && "Packets:"@.len() > 0) by {
        reveal_strlit("Packets:");
        reveal_strlit("Minimum");
        text::lemma_other_start("Packets:"@, rest, "Minimum"@, 0);
        text::lemma_other_start("Minimum"@, rest, "Packets:"@, 0);
    }
}

/// The part that is wanted is the first that holds the words.
pub proof fn law_first_part_with_the_words(
    before: Seq<Seq<char>>,
    part: Seq<char>,
    after: Seq<Seq<char>>,
    p: Seq<char>,
)
    requires
        forall|i: int| 0 <= i < before.len() ==> !text::contains(#[trigger] before[i], p),
        text::contains(part, p),
    ensures
        first_with(before + seq![part] + after, p) == Some(part),
        first_with(before, p) is None,
    decreases before.len(),
{
    let v = before + seq![part] + after;
    if before.len() > 0 {
        let r = before.skip(1);
        assert forall|i: int| 0 <= i < r.len() implies !text::contains(#[trigger] r[i], p) by {
            assert(r[i] == before[i + 1]);
        }
        law_first_part_with_the_words(r, part, after, p);
        assert(v[0] == before[0]);
        assert(v.skip(1) == r + seq![part] + after);
    } else {
        assert(v[0] == part);
    }
}

/// The arguments of a run.
pub open spec fn arguments(windows: bool, count: u16, host: Seq<char>) -> Seq<Seq<char>> {
    if windows {
        seq!["-n"@, number::dec(count as nat), host]
    } else {
        seq!["-n"@, "-c"@, number::dec(count as nat), "-W"@, "1"@, host]
    }
}

/// The host comes last, and the count behind its option. Elsewhere than on Windows no names
/// are looked up and an answer is waited for one second.
pub proof fn law_host_comes_last(windows: bool, count: u16, host: Seq<char>)
    ensures
        ({
            let a = arguments(windows, count, host);
            &&& a.last() == host
            &&& windows ==> a.take(2) == seq!["-n"@, number::dec(count as nat)]
            &&& !windows ==> a[0] == "-n"@
            &&& !windows ==> a.subrange(1, 3) == seq!["-c"@, number::dec(count as nat)]
            &&& !windows ==> a.subrange(3, 5) == seq!["-W"@, "1"@]
            &&& windows ==> a.len() == 3
            &&& !windows ==> a.len() == 6
        }),
{
}

} // verus!
