//! Local bandwidth from interface byte counters.

use vstd::prelude::*;

verus! {

/// Bytes of one interface since the last reading.
#[derive(Clone, Debug, PartialEq, Eq)]
pub struct IfaceDelta {
    pub iface: String,
    pub rx_bytes: u64,
    pub tx_bytes: u64,
}

impl View for IfaceDelta {
    type V = (Seq<char>, u64, u64);

    open spec fn view(&self) -> (Seq<char>, u64, u64) {
        (self.iface@, self.rx_bytes, self.tx_bytes)
    }
}

pub open spec fn deltas(v: Seq<IfaceDelta>) -> Seq<(Seq<char>, u64, u64)> {
    v.map_values(|d: IfaceDelta| d@)
}

/// One reading: the aggregate rate in bits per second, the interfaces that
/// moved bytes, and the window in nanoseconds.
#[derive(Clone, Debug, PartialEq, Eq)]
pub struct BandwidthSample {
    pub rx_bps: u64,
    pub tx_bps: u64,
    pub per_iface: Vec<IfaceDelta>,
    pub nanos: u64,
}

pub open spec fn rx_total(v: Seq<(Seq<char>, u64, u64)>) -> nat
    decreases v.len(),
{
    if v.len() == 0 {
        0
    } else {
        rx_total(v.drop_last()) + v.last().1 as nat
    }
}

pub open spec fn tx_total(v: Seq<(Seq<char>, u64, u64)>) -> nat
    decreases v.len(),
{
    if v.len() == 0 {
        0
    } else {
        tx_total(v.drop_last()) + v.last().2 as nat
    }
}

/// The interfaces that moved any byte, in order.
pub open spec fn moving(v: Seq<(Seq<char>, u64, u64)>) -> Seq<(Seq<char>, u64, u64)>
    decreases v.len(),
{
    if v.len() == 0 {
        Seq::empty()
    } else if v.last().1 > 0 || v.last().2 > 0 {
        moving(v.drop_last()).push(v.last())
    } else {
        moving(v.drop_last())
    }
}

/// The window is at least a millisecond.
pub open spec fn window(nanos: u64) -> u64 {
    if nanos < 1_000_000 {
        1_000_000
    } else {
        nanos
    }
}

/// Bits per second of `bytes` in `nanos` nanoseconds, held at `u64::MAX`.
pub open spec fn rate(bytes: nat, nanos: u64) -> u64 {
    let bps = bytes * 8_000_000_000 / nanos as nat;
    if bps <= u64::MAX {
        bps as u64
    } else {
        u64::MAX
    }
}

fn rate_of(bytes: u128, nanos: u64) -> (r: u64)
    requires
        nanos > 0,
    ensures
        r == rate(bytes as nat, nanos),
{
    let max: u128 = 0xffff_ffff_ffff_ffff;
    if bytes > 0x1_0000_0000_0000_0000_0000_0000 {
        proof {
            let b = bytes as int;
            let n = nanos as int;
            assert(b * 8_000_000_000 / n > 0xffff_ffff_ffff_ffff) by (nonlinear_arith)
                requires
                    b > 0x1_0000_0000_0000_0000_0000_0000,
                    0 < n <= 0xffff_ffff_ffff_ffff,
            ;
        }
        return 0xffff_ffff_ffff_ffff;
    }
    // At most 2^96 bytes here: split so that the product stays in range.
    let n: u128 = nanos as u128;
    let q: u128 = bytes / n;
    let m: u128 = bytes % n;
    if q > max {
        proof {
            let b = bytes as int;
            let k = nanos as int;
            assert(b * 8_000_000_000 / k > 0xffff_ffff_ffff_ffff) by (nonlinear_arith)
                requires
                    b / k > 0xffff_ffff_ffff_ffff,
                    k > 0,
            ;
        }
        return 0xffff_ffff_ffff_ffff;
    }
    let bps: u128 = q * 8_000_000_000 + m * 8_000_000_000 / n;
    proof {
        let b = bytes as int;
        let k = nanos as int;
        let q = q as int;
        let m = m as int;
        vstd::arithmetic::div_mod::lemma_fundamental_div_mod(b, k);
        assert(b == q * k + m) by (nonlinear_arith)
            requires
                b == k * q + m,
        ;
        assert(b * 8_000_000_000 / k == q * 8_000_000_000 + m * 8_000_000_000 / k)
            by (nonlinear_arith)
            requires
                b == q * k + m,
                0 <= m < k,
        {
            assert(b * 8_000_000_000 == (q * 8_000_000_000) * k + m * 8_000_000_000);
        }
    }
    if bps <= max {
        bps as u64
    } else {
        0xffff_ffff_ffff_ffff
    }
}

/// A reading from every interface's byte counts over the elapsed time.
pub fn sample(counters: Vec<IfaceDelta>, elapsed_nanos: u64) -> (r: BandwidthSample)
    ensures
        r.nanos == window(elapsed_nanos),
        r.rx_bps == rate(rx_total(deltas(counters@)), r.nanos),
        r.tx_bps == rate(tx_total(deltas(counters@)), r.nanos),
        deltas(r.per_iface@) == moving(deltas(counters@)),
{
    let nanos: u64 = if elapsed_nanos < 1_000_000 { 1_000_000 } else { elapsed_nanos };
    let ghost v = deltas(counters@);
    let mut per_iface: Vec<IfaceDelta> = Vec::new();
    let mut rx: u128 = 0;
    let mut tx: u128 = 0;
    let mut i: usize = 0;
    assert(deltas(per_iface@) == moving(v.take(0)));
    while i < counters.len()
        invariant
            i <= counters.len(),
            v == deltas(counters@),
            rx == rx_total(v.take(i as int)),
            tx == tx_total(v.take(i as int)),
            rx <= i * 0xffff_ffff_ffff_ffff,
            tx <= i * 0xffff_ffff_ffff_ffff,
            deltas(per_iface@) == moving(v.take(i as int)),
        decreases counters.len() - i,
    {
        assert(v.take(i + 1).drop_last() == v.take(i as int));
        assert(v.take(i + 1).last() == counters@[i as int]@);
        assert(i * 0xffff_ffff_ffff_ffff + 0xffff_ffff_ffff_ffff <= u128::MAX) by (nonlinear_arith)
            requires
                0 <= i <= 0xffff_ffff_ffff_fffe,
        ;
        let c = &counters[i];
        rx = rx + c.rx_bytes as u128;
        tx = tx + c.tx_bytes as u128;
        if c.rx_bytes > 0 || c.tx_bytes > 0 {
            let ghost before = deltas(per_iface@);
            let d = IfaceDelta {
                iface: c.iface.clone(),
                rx_bytes: c.rx_bytes,
                tx_bytes: c.tx_bytes,
            };
            per_iface.push(d);
            assert(deltas(per_iface@) == before.push(d@));
        }
        i += 1;
    }
    assert(v.take(counters@.len() as int) == v);
    BandwidthSample { rx_bps: rate_of(rx, nanos), tx_bps: rate_of(tx, nanos), per_iface, nanos }
}

/// Received and sent bytes add up over the interfaces. Listed are those that received
/// or sent something, in their order.
pub proof fn law_interfaces_add_up(
    a: Seq<(Seq<char>, u64, u64)>,
    b: Seq<(Seq<char>, u64, u64)>,
    row: (Seq<char>, u64, u64),
)
    ensures
        rx_total(a + b) == rx_total(a) + rx_total(b),
        rx_total(seq![row]) == (row.1 as nat),
        rx_total(Seq::<(Seq<char>, u64, u64)>::empty()) == 0,
        tx_total(a + b) == tx_total(a) + tx_total(b),
        tx_total(seq![row]) == (row.2 as nat),
        tx_total(Seq::<(Seq<char>, u64, u64)>::empty()) == 0,
        moving(a + b) == moving(a) + moving(b),
        moving(seq![row]) == (if row.1 == 0 && row.2 == 0 {
            Seq::empty()
        } else {
            seq![row]
        }),
        moving(Seq::<(Seq<char>, u64, u64)>::empty()) == Seq::<(Seq<char>, u64, u64)>::empty(),
    decreases b.len(),
{
    reveal_with_fuel(rx_total, 2);
    reveal_with_fuel(tx_total, 2);
    reveal_with_fuel(moving, 2);
    assert(seq![row].drop_last() == Seq::<(Seq<char>, u64, u64)>::empty());
    if b.len() == 0 {
        assert(a + b == a);
    } else {
        law_interfaces_add_up(a, b.drop_last(), row);
        assert((a + b).drop_last() == a + b.drop_last());
        assert(rx_total(a + b) == rx_total(a) + rx_total(b));
        assert(tx_total(a + b) == tx_total(a) + tx_total(b));
        assert(moving(a + b) == moving(a) + moving(b));
    }
}


/// The rate is the bits per second of the window, rounded down, as far as the number
/// holds it.
pub proof fn law_rate_is_bits_per_second(bytes: nat, nanos: u64)
    requires
        nanos > 0,
    ensures
        rate(bytes, nanos) * nanos <= bytes * 8 * 1_000_000_000,
        rate(bytes, nanos) < u64::MAX ==> bytes * 8 * 1_000_000_000 < (rate(bytes, nanos) + 1)
            * nanos,
{
    let n = nanos as int;
    let b = bytes * 8_000_000_000;
    let q = b as int / n;
    vstd::arithmetic::div_mod::lemma_fundamental_div_mod(b as int, n);
    assert(q * n == n * q) by (nonlinear_arith);
    assert((q + 1) * n == n * q + n) by (nonlinear_arith);
    assert(q >= 0) by (nonlinear_arith)
        requires
            q == b as int / n,
            n > 0,
            b >= 0,
    ;
    if q > u64::MAX {
        assert(u64::MAX as int * n <= q * n) by (nonlinear_arith)
            requires
                q > u64::MAX,
                n > 0,
        ;
    }
}

/// A window is at least a millisecond long.
pub proof fn law_windows_last_a_millisecond(nanos: u64)
    ensures
        window(nanos) >= 1_000_000,
        nanos >= 1_000_000 ==> window(nanos) == nanos,
        nanos < 1_000_000 ==> window(nanos) == 1_000_000,
{
}

/// A counter is taken by its name, what it received and what it sent.
pub proof fn law_counters_are_taken_as_they_are(v: Seq<IfaceDelta>, i: int)
    requires
        0 <= i < v.len(),
    ensures
        deltas(v).len() == v.len(),
        deltas(v)[i] == (v[i].iface@, v[i].rx_bytes, v[i].tx_bytes),
{
}

} // verus!
