//! Error and drop counters of the network interfaces.

use vstd::prelude::*;

use crate::number;
use crate::text;

verus! {

/// Totals over all interfaces but the loopback.
#[derive(Clone, Copy, Debug, PartialEq, Eq, Structural)]
pub struct IfaceErrors {
    pub rx_errors: i64,
    pub rx_drops: i64,
    pub tx_errors: i64,
    pub tx_drops: i64,
}

impl Default for IfaceErrors {
    fn default() -> (r: IfaceErrors)
        ensures
            r == no_errors(),
    {
        IfaceErrors { rx_errors: 0, rx_drops: 0, tx_errors: 0, tx_drops: 0 }
    }
}

pub open spec fn no_errors() -> IfaceErrors {
    IfaceErrors { rx_errors: 0, rx_drops: 0, tx_errors: 0, tx_drops: 0 }
}

/// The words that are integers, in order.
pub open spec fn integers(ws: Seq<Seq<char>>) -> Seq<i64>
    decreases ws.len(),
{
    if ws.len() == 0 {
        Seq::empty()
    } else {
        match number::parse_i64(ws.last()) {
            Some(n) => integers(ws.drop_last()).push(n),
            None => integers(ws.drop_last()),
        }
    }
}

/// The totals after one more `/proc/net/dev` line. After `iface:` the columns
/// are received bytes, packets, errors, drops and four more, then the same for
/// what was transmitted. A total past the 64-bit range wraps round.
pub open spec fn add_line(e: IfaceErrors, line: Seq<char>) -> IfaceErrors {
    match text::split_once(line, ':') {
        Some((name, rest)) => {
            let f = integers(text::words(rest));
            if text::trim(name) == "lo"@ || f.len() < 12 {
                e
            } else {
                IfaceErrors {
                    rx_errors: e.rx_errors.wrapping_add(f[2]),
                    rx_drops: e.rx_drops.wrapping_add(f[3]),
                    tx_errors: e.tx_errors.wrapping_add(f[10]),
                    tx_drops: e.tx_drops.wrapping_add(f[11]),
                }
            }
        },
        None => e,
    }
}

pub open spec fn add_lines(lines: Seq<Seq<char>>) -> IfaceErrors
    decreases lines.len(),
{
    if lines.len() == 0 {
        no_errors()
    } else {
        add_line(add_lines(lines.drop_last()), lines.last())
    }
}

fn read_integers(s: &[char]) -> (r: Vec<i64>)
    ensures
        r@ == integers(text::words(s@)),
{
    let ws = text::split_words(s);
    let ghost v = text::words(s@);
    let mut out: Vec<i64> = Vec::new();
    let mut i: usize = 0;
    while i < ws.len()
        invariant
            i <= ws.len(),
            text::views(ws@) == v,
            out@ == integers(v.take(i as int)),
        decreases ws.len() - i,
    {
        assert(v.take(i + 1).drop_last() == v.take(i as int));
        assert(v.take(i + 1).last() == ws@[i as int]@);
        if let Some(n) = number::read_i64(ws[i]) {
            out.push(n);
        }
        i += 1;
    }
    assert(v.take(ws@.len() as int) == v);
    out
}

/// Reads Linux's `/proc/net/dev`, adding up errors and drops over every
/// interface but the loopback.
pub fn parse_proc_net_dev(text: &str) -> (r: IfaceErrors)
    ensures
        r == add_lines(text::lines(text@)),
{
    let all = text::chars(text);
    let lines = text::split_lines(&all);
    let ghost v = text::lines(text@);
    let mut e: IfaceErrors = IfaceErrors::default();
    let mut i: usize = 0;
    while i < lines.len()
        invariant
            i <= lines.len(),
            text::views(lines@) == v,
            e == add_lines(v.take(i as int)),
        decreases lines.len() - i,
    {
        assert(v.take(i + 1).drop_last() == v.take(i as int));
        assert(v.take(i + 1).last() == lines@[i as int]@);
        if let Some((name, rest)) = text::split_at_char(lines[i], ':') {
            if !text::same(text::trimmed(name), "lo") {
                let f = read_integers(rest);
                if f.len() >= 12 {
                    e.rx_errors = e.rx_errors.wrapping_add(f[2]);
                    e.rx_drops = e.rx_drops.wrapping_add(f[3]);
                    e.tx_errors = e.tx_errors.wrapping_add(f[10]);
                    e.tx_drops = e.tx_drops.wrapping_add(f[11]);
                }
            }
        }
        i += 1;
    }
    assert(v.take(lines@.len() as int) == v);
    e
}

// ---------------------------------------------------------------------------
// Laws
// ---------------------------------------------------------------------------

/// The sum of two totals, counter by counter. It wraps round as the totals do.
pub open spec fn sum(a: IfaceErrors, b: IfaceErrors) -> IfaceErrors {
    IfaceErrors {
        rx_errors: a.rx_errors.wrapping_add(b.rx_errors),
        rx_drops: a.rx_drops.wrapping_add(b.rx_drops),
        tx_errors: a.tx_errors.wrapping_add(b.tx_errors),
        tx_drops: a.tx_drops.wrapping_add(b.tx_drops),
    }
}

/// A line that counts for no interface: a header, the loopback or one with too
/// few numbers.
pub open spec fn is_idle(line: Seq<char>) -> bool {
    match text::split_once(line, ':') {
        Some((name, rest)) => text::trim(name) == "lo"@ || integers(text::words(rest)).len() < 12,
        None => true,
    }
}

proof fn lemma_lines_add(a: Seq<Seq<char>>, b: Seq<Seq<char>>)
    ensures
        add_lines(a + b) == sum(add_lines(a), add_lines(b)),
    decreases b.len(),
{
    if b.len() == 0 {
        assert(a + b == a);
    } else {
        lemma_lines_add(a, b.drop_last());
        assert((a + b).drop_last() == a + b.drop_last());
    }
}

proof fn lemma_drop_cr(line: Seq<char>)
    ensures
        add_line(no_errors(), text::drop_cr(line)) == add_line(no_errors(), line),
{
    if line.len() > 0 && line.last() == '\r' {
        let d = line.drop_last();
        text::lemma_until(line, ':');
        text::lemma_until(d, ':');
        let (m, n) = (text::until(line, ':') as int, text::until(d, ':') as int);
        if n < d.len() {
            assert(line[n] == d[n]);
        }
        if m < d.len() {
            assert(line[m] == d[m]);
        }
        if n < d.len() {
            if m < n {
                assert(d[m] == line[m]);
            }
            assert(m == n);
            assert(line.take(n) == d.take(n));
            assert(line.skip(n + 1) == d.skip(n + 1).push('\r'));
            text::lemma_words_push(d.skip(n + 1), '\r');
        } else if m < line.len() {
            assert(line[m] == ':');
            assert(m < d.len());
        }
    }
}

/// The counters of two texts joined by a line break are the sums of theirs. So
/// the order of the lines never matters, and no text at all has no errors.
pub proof fn law_joined_texts_add_up(a: Seq<char>, b: Seq<char>)
    ensures
        add_lines(text::lines(a + seq!['\n'] + b)) == sum(
            add_lines(text::lines(a)),
            add_lines(text::lines(b)),
        ),
        add_lines(text::lines(a + seq!['\n'] + b)) == add_lines(text::lines(b + seq!['\n'] + a)),
        add_lines(text::lines(Seq::empty())) == no_errors(),
{
    lemma_joined(a, b);
    lemma_joined(b, a);
}

proof fn lemma_joined(a: Seq<char>, b: Seq<char>)
    ensures
        add_lines(text::lines(a + seq!['\n'] + b)) == sum(
            add_lines(text::lines(a)),
            add_lines(text::lines(b)),
        ),
    decreases a.len(),
{
    let s = a + seq!['\n'] + b;
    let n = text::until(a, '\n') as int;
    let m = text::until(s, '\n') as int;
    text::lemma_until(a, '\n');
    text::lemma_until(s, '\n');
    assert(s[a.len() as int] == '\n');
    assert forall|i: int| 0 <= i < a.len() implies #[trigger] s[i] == a[i] by {}
    assert(m == n) by {
        if m < n {
            assert(a[m] == s[m]);
        } else if n < m {
            assert(s[n] == '\n');
        }
    }
    let rest = text::lines(s.skip(n + 1));
    let line = text::drop_cr(s.take(n));
    assert(s.take(n) == a.take(n));
    assert(text::lines(s) == seq![line] + rest);
    lemma_lines_add(seq![line], rest);
    assert(seq![line].drop_last() == Seq::<Seq<char>>::empty());
    if n < a.len() {
        assert(s.skip(n + 1) == a.skip(n + 1) + seq!['\n'] + b);
        lemma_joined(a.skip(n + 1), b);
        lemma_lines_add(seq![line], text::lines(a.skip(n + 1)));
    } else {
        assert(s.skip(n + 1) == b);
        assert(a.take(n) == a);
        lemma_drop_cr(a);
        if a.len() > 0 {
            assert(text::lines(a) == seq![a]);
            assert(seq![a].drop_last() == Seq::<Seq<char>>::empty());
        }
    }
}

/// Headers, the loopback and short lines never count: such a line before, behind
/// or between others changes nothing.
pub proof fn law_idle_lines_never_count(a: Seq<char>, line: Seq<char>, b: Seq<char>)
    requires
        !line.contains('\n'),
        is_idle(line),
    ensures
        add_lines(text::lines(a + seq!['\n'] + (line + seq!['\n'] + b))) == add_lines(
            text::lines(a + seq!['\n'] + b),
        ),
        add_lines(text::lines(line + seq!['\n'] + b)) == add_lines(text::lines(b)),
        add_lines(text::lines(a + seq!['\n'] + line)) == add_lines(text::lines(a)),
{
    lemma_joined(a, line + seq!['\n'] + b);
    lemma_joined(line, b);
    lemma_joined(a, b);
    lemma_joined(a, line);
    text::lemma_until(line, '\n');
    assert(add_lines(text::lines(line)) == no_errors()) by {
        let n = text::until(line, '\n') as int;
        if n < line.len() {
            assert(line.contains(line[n]));
        }
        if line.len() > 0 {
            assert(text::lines(line) == seq![line]);
            assert(seq![line].drop_last() == Seq::<Seq<char>>::empty());
            assert(add_lines(Seq::empty()) == no_errors());
            assert(add_line(no_errors(), line) == no_errors());
        }
    }
}

/// A line counts the third and fourth number as received errors and drops, and the
/// eleventh and twelfth as sent ones.
pub proof fn law_columns_of_a_line(line: Seq<char>, name: Seq<char>, rest: Seq<char>)
    requires
        !name.contains(':'),
        line == name + seq![':'] + rest,
        text::trim(name) != "lo"@,
        integers(text::words(rest)).len() >= 12,
    ensures
        ({
            let f = integers(text::words(rest));
            let e = add_lines(seq![line]);
            &&& e.rx_errors == f[2]
            &&& e.rx_drops == f[3]
            &&& e.tx_errors == f[10]
            &&& e.tx_drops == f[11]
        }),
{
    reveal_with_fuel(add_lines, 2);
    text::law_texts_are_split_at_every_separator(name, ':', rest);
    assert(seq![line].drop_last() == Seq::<Seq<char>>::empty());
}

/// Only words that are numbers are counted, in their order.
pub proof fn law_numbers_of_a_line(a: Seq<Seq<char>>, b: Seq<Seq<char>>, word: Seq<char>)
    ensures
        integers(a + b) == integers(a) + integers(b),
        integers(seq![word]) == (match number::parse_i64(word) {
            Some(n) => seq![n],
            None => Seq::empty(),
        }),
        integers(Seq::<Seq<char>>::empty()) == Seq::<i64>::empty(),
    decreases b.len(),
{
    reveal_with_fuel(integers, 2);
    assert(seq![word].drop_last() == Seq::<Seq<char>>::empty());
    if b.len() == 0 {
        assert(a + b == a);
    } else {
        law_numbers_of_a_line(a, b.drop_last(), word);
        assert((a + b).drop_last() == a + b.drop_last());
        assert(integers(a + b) == integers(a) + integers(b));
    }
}

} // verus!
