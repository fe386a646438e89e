//! Sums, means and extremes of measured values.

use vstd::prelude::*;

verus! {

pub open spec fn total(s: Seq<u64>) -> nat
    decreases s.len(),
{
    if s.len() == 0 {
        0
    } else {
        total(s.drop_last()) + s.last() as nat
    }
}

/// The mean, cut to a whole number; `None` of no values.
pub open spec fn mean(s: Seq<u64>) -> Option<u64> {
    if s.len() == 0 {
        None
    } else {
        Some((total(s) / s.len()) as u64)
    }
}

/// `m` is the least of the values.
pub open spec fn is_least(s: Seq<u64>, m: u64) -> bool {
    s.contains(m) && forall|i: int| 0 <= i < s.len() ==> m <= #[trigger] s[i]
}

/// `m` is the greatest of the values.
pub open spec fn is_greatest(s: Seq<u64>, m: u64) -> bool {
    s.contains(m) && forall|i: int| 0 <= i < s.len() ==> #[trigger] s[i] <= m
}

/// The least of the values; `None` of no values.
pub open spec fn minimum(s: Seq<u64>) -> Option<u64>
    decreases s.len(),
{
    if s.len() == 0 {
        None
    } else {
        match minimum(s.drop_last()) {
            Some(m) if m <= s.last() => Some(m),
            _ => Some(s.last()),
        }
    }
}

pub fn minimum_of(s: &[u64]) -> (r: Option<u64>)
    ensures
        r == minimum(s@),
{
    let mut m: Option<u64> = None;
    let mut i: usize = 0;
    while i < s.len()
        invariant
            i <= s.len(),
            m == minimum(s@.take(i as int)),
        decreases s.len() - i,
    {
        assert(s@.take(i + 1).drop_last() == s@.take(i as int));
        m = match m {
            Some(x) => if x <= s[i] {
                Some(x)
            } else {
                Some(s[i])
            },
            None => Some(s[i]),
        };
        i += 1;
    }
    assert(s@.take(s@.len() as int) == s@);
    m
}

/// The minimum is the least value.
pub proof fn law_minimum_is_least(s: Seq<u64>)
    ensures
        match minimum(s) {
            Some(m) => is_least(s, m),
            None => s.len() == 0,
        },
    decreases s.len(),
{
    if s.len() > 0 {
        let d = s.drop_last();
        law_minimum_is_least(d);
        let m = minimum(s)->0;
        assert forall|i: int| 0 <= i < s.len() implies m <= #[trigger] s[i] by {
            if i < d.len() {
                assert(d[i] == s[i]);
            }
        }
        if minimum(d) is Some && minimum(d)->0 <= s.last() {
            let k = choose|k: int| 0 <= k < d.len() && d[k] == m;
            assert(s[k] == m);
        } else {
            assert(s[s.len() - 1] == m);
        }
    }
}

/// The greatest of the values; `None` of no values.
pub open spec fn maximum(s: Seq<u64>) -> Option<u64>
    decreases s.len(),
{
    if s.len() == 0 {
        None
    } else {
        match maximum(s.drop_last()) {
            Some(m) if m >= s.last() => Some(m),
            _ => Some(s.last()),
        }
    }
}

pub fn maximum_of(s: &[u64]) -> (r: Option<u64>)
    ensures
        r == maximum(s@),
{
    let mut m: Option<u64> = None;
    let mut i: usize = 0;
    while i < s.len()
        invariant
            i <= s.len(),
            m == maximum(s@.take(i as int)),
        decreases s.len() - i,
    {
        assert(s@.take(i + 1).drop_last() == s@.take(i as int));
        m = match m {
            Some(x) => if x >= s[i] {
                Some(x)
            } else {
                Some(s[i])
            },
            None => Some(s[i]),
        };
        i += 1;
    }
    assert(s@.take(s@.len() as int) == s@);
    m
}

/// The maximum is the greatest value.
pub proof fn law_maximum_is_greatest(s: Seq<u64>)
    ensures
        match maximum(s) {
            Some(m) => is_greatest(s, m),
            None => s.len() == 0,
        },
    decreases s.len(),
{
    if s.len() > 0 {
        let d = s.drop_last();
        law_maximum_is_greatest(d);
        let m = maximum(s)->0;
        assert forall|i: int| 0 <= i < s.len() implies #[trigger] s[i] <= m by {
            if i < d.len() {
                assert(d[i] == s[i]);
            }
        }
        if maximum(d) is Some && maximum(d)->0 >= s.last() {
            let k = choose|k: int| 0 <= k < d.len() && d[k] == m;
            assert(s[k] == m);
        } else {
            assert(s[s.len() - 1] == m);
        }
    }
}

pub proof fn lemma_total_bounds(s: Seq<u64>, lo: nat, hi: nat)
    requires
        forall|i: int| 0 <= i < s.len() ==> lo <= #[trigger] s[i] <= hi,
    ensures
        lo * s.len() <= total(s) <= hi * s.len(),
    decreases s.len(),
{
    if s.len() > 0 {
        let t = s.drop_last();
        assert forall|i: int| 0 <= i < t.len() implies lo <= #[trigger] t[i] <= hi by {
            assert(t[i] == s[i]);
        }
        lemma_total_bounds(t, lo, hi);
        assert(lo <= s[s.len() - 1] <= hi);
        assert(lo * s.len() == lo * t.len() + lo) by (nonlinear_arith)
            requires
                s.len() == t.len() + 1,
        ;
        assert(hi * s.len() == hi * t.len() + hi) by (nonlinear_arith)
            requires
                s.len() == t.len() + 1,
        ;
    } else {
        assert(lo * s.len() == 0 && hi * s.len() == 0) by (nonlinear_arith)
            requires
                s.len() == 0,
        ;
    }
}

/// A mean lies between the bounds of its values.
pub proof fn lemma_mean_between(s: Seq<u64>, lo: u64, hi: u64)
    requires
        s.len() > 0,
        forall|i: int| 0 <= i < s.len() ==> lo <= #[trigger] s[i] <= hi,
    ensures
        lo <= total(s) / s.len() <= hi,
{
    lemma_total_bounds(s, lo as nat, hi as nat);
    let n = s.len() as int;
    let t = total(s) as int;
    assert(lo <= t / n <= hi) by (nonlinear_arith)
        requires
            n > 0,
            lo * n <= t <= hi * n,
    ;
}

pub fn sum(s: &[u64]) -> (r: u128)
    ensures
        r == total(s@),
        r <= s@.len() * 0xffff_ffff_ffff_ffff,
{
    let mut acc: u128 = 0;
    let mut i: usize = 0;
    while i < s.len()
        invariant
            i <= s.len(),
            acc == total(s@.take(i as int)),
            acc <= i * 0xffff_ffff_ffff_ffff,
        decreases s.len() - i,
    {
        assert(s@.take(i + 1).drop_last() == s@.take(i as int));
        assert(i * 0xffff_ffff_ffff_ffff + 0xffff_ffff_ffff_ffff <= u128::MAX) by (nonlinear_arith)
            requires
                0 <= i <= 0xffff_ffff_ffff_fffe,
        ;
        acc = acc + s[i] as u128;
        i += 1;
    }
    assert(s@.take(s@.len() as int) == s@);
    acc
}

pub fn mean_of(s: &[u64]) -> (r: Option<u64>)
    ensures
        r == mean(s@),
{
    if s.len() == 0 {
        return None;
    }
    let t: u128 = sum(s);
    proof {
        assert forall|i: int| 0 <= i < s@.len() implies 0 <= #[trigger] s@[i] <= u64::MAX by {}
        lemma_mean_between(s@, 0, u64::MAX);
    }
    Some((t / s.len() as u128) as u64)
}

/// A total adds up value by value: that of two lists together is the sum of
/// theirs, and that of one value is the value.
pub proof fn law_total_adds_up(a: Seq<u64>, b: Seq<u64>, x: u64)
    ensures
        total(a + b) == total(a) + total(b),
        total(seq![x]) == x,
        total(Seq::empty()) == 0,
    decreases b.len(),
{
    reveal_with_fuel(total, 3);
    assert(seq![x].drop_last() == Seq::<u64>::empty());
    if b.len() == 0 {
        assert(a + b == a);
    } else {
        law_total_adds_up(a, b.drop_last(), x);
        assert((a + b).drop_last() == a + b.drop_last());
    }
}

/// The mean times the number of values is the total, but for less than one unit
/// for each value; there is a mean exactly of one value or more.
pub proof fn law_mean_divides_the_total(s: Seq<u64>)
    ensures
        mean(s) is None <==> s.len() == 0,
        mean(s) is Some ==> mean(s)->0 * s.len() <= total(s) < (mean(s)->0 + 1) * s.len(),
{
    if s.len() > 0 {
        assert forall|i: int| 0 <= i < s.len() implies 0 <= #[trigger] s[i] <= u64::MAX by {}
        lemma_mean_between(s, 0, u64::MAX);
        let (t, n) = (total(s) as int, s.len() as int);
        assert(t / n * n <= t < (t / n + 1) * n) by (nonlinear_arith)
            requires
                n > 0,
                t >= 0,
        ;
    }
}

/// The least and the greatest value are among the values, and none is beyond
/// them.
pub proof fn law_extremes_bound_every_value(s: Seq<u64>, i: int)
    requires
        0 <= i < s.len(),
    ensures
        minimum(s) is Some && maximum(s) is Some,
        minimum(s)->0 <= s[i] <= maximum(s)->0,
        s.contains(minimum(s)->0),
        s.contains(maximum(s)->0),
{
    law_minimum_is_least(s);
    law_maximum_is_greatest(s);
}

} // verus!
