//! Ordering rows by a key, sorting values, percentiles.

use vstd::prelude::*;

verus! {

// ---------------------------------------------------------------------------
// Rows by key
// ---------------------------------------------------------------------------

/// Where an index with key `t` belongs in the ordered indices `ord`: behind
/// every index with a key that is not greater.
pub open spec fn slot(keys: Seq<i128>, ord: Seq<usize>, t: i128) -> nat
    decreases ord.len(),
{
    if ord.len() > 0 && keys[ord.last() as int] > t {
        slot(keys, ord.drop_last(), t)
    } else {
        ord.len()
    }
}

/// The first `n` indices ordered by ascending key; equal keys stay in the order
/// of their indices.
pub open spec fn ascending(keys: Seq<i128>, n: nat) -> Seq<usize>
    decreases n,
{
    if n == 0 {
        Seq::empty()
    } else {
        let before = ascending(keys, (n - 1) as nat);
        before.insert(slot(keys, before, keys[n - 1]) as int, (n - 1) as usize)
    }
}

/// `a` comes before `b`: by key, then by index.
pub open spec fn before(keys: Seq<i128>, a: usize, b: usize) -> bool {
    keys[a as int] < keys[b as int] || (keys[a as int] == keys[b as int] && a < b)
}

proof fn lemma_slot(keys: Seq<i128>, ord: Seq<usize>, t: i128)
    requires
        forall|i: int, j: int|
            0 <= i < j < ord.len()
                ==> keys[#[trigger] ord[i] as int] <= keys[#[trigger] ord[j] as int],
    ensures
        slot(keys, ord, t) <= ord.len(),
        forall|i: int| 0 <= i < slot(keys, ord, t) ==> keys[#[trigger] ord[i] as int] <= t,
        forall|i: int| slot(keys, ord, t) <= i < ord.len() ==> t < keys[#[trigger] ord[i] as int],
    decreases ord.len(),
{
    if ord.len() > 0 && keys[ord.last() as int] > t {
        let d = ord.drop_last();
        assert forall|i: int, j: int| 0 <= i < j < d.len() implies keys[#[trigger] d[i] as int]
            <= keys[#[trigger] d[j] as int] by {
            assert(d[i] == ord[i] && d[j] == ord[j]);
        }
        lemma_slot(keys, d, t);
        assert forall|i: int| 0 <= i < slot(keys, ord, t) implies keys[#[trigger] ord[i] as int]
            <= t by {
            assert(d[i] == ord[i]);
        }
        assert forall|i: int| slot(keys, ord, t) <= i < ord.len() implies t < keys[#[trigger] ord[i] as int] by {
            if i < d.len() {
                assert(d[i] == ord[i]);
            }
        }
    } else if ord.len() > 0 {
        assert forall|i: int| 0 <= i < ord.len() implies keys[#[trigger] ord[i] as int] <= t by {
            assert(ord[ord.len() - 1] == ord.last());
            if i < ord.len() - 1 {
                assert(keys[ord[i] as int] <= keys[ord[ord.len() - 1] as int]);
            }
        }
    }
}

/// The ordering lists each of the first `n` indices exactly once, in order.
pub proof fn law_ascending_is_the_order(keys: Seq<i128>, n: nat)
    requires
        n <= keys.len(),
        n <= usize::MAX,
    ensures
        ascending(keys, n).len() == n,
        forall|i: int| 0 <= i < n ==> (#[trigger] ascending(keys, n)[i]) < n,
        forall|i: int, j: int|
            0 <= i < j < n ==> before(
                keys,
                #[trigger] ascending(keys, n)[i],
                #[trigger] ascending(keys, n)[j],
            ),
        forall|k: usize| k < n ==> #[trigger] ascending(keys, n).contains(k),
    decreases n,
{
    if n > 0 {
        let m = (n - 1) as nat;
        law_ascending_is_the_order(keys, m);
        let b = ascending(keys, m);
        assert forall|i: int, j: int| 0 <= i < j < b.len() implies keys[#[trigger] b[i] as int]
            <= keys[#[trigger] b[j] as int] by {
            assert(before(keys, b[i], b[j]));
        }
        lemma_slot(keys, b, keys[m as int]);
        let p = slot(keys, b, keys[m as int]) as int;
        let r = ascending(keys, n);
        assert(r == b.insert(p, m as usize));
        assert forall|i: int| 0 <= i < n implies (#[trigger] r[i]) < n by {
            if i < p {
                assert(r[i] == b[i]);
            } else if i > p {
                assert(r[i] == b[i - 1]);
            }
        }
        assert forall|i: int, j: int| 0 <= i < j < n implies before(
            keys,
            #[trigger] r[i],
            #[trigger] r[j],
        ) by {
            if j < p {
                assert(before(keys, b[i], b[j]));
            } else if j == p {
                assert(keys[b[i] as int] <= keys[m as int]);
            } else if i < p {
                assert(before(keys, b[i], b[j - 1]));
            } else if i == p {
                assert(keys[m as int] < keys[b[j - 1] as int]);
            } else {
                assert(before(keys, b[i - 1], b[j - 1]));
            }
        }
        assert forall|k: usize| k < n implies #[trigger] r.contains(k) by {
            if k == m {
                assert(r[p] == k);
            } else {
                assert(b.contains(k));
                let i = choose|i: int| 0 <= i < b.len() && b[i] == k;
                if i < p {
                    assert(r[i] == k);
                } else {
                    assert(r[i + 1] == k);
                }
            }
        }
    }
}

/// The indices of `keys` by ascending key.
pub fn ascending_order(keys: &Vec<i128>) -> (r: Vec<usize>)
    ensures
        r@ == ascending(keys@, keys@.len()),
        r@.len() == keys@.len(),
        forall|i: int| 0 <= i < r@.len() ==> (#[trigger] r@[i]) < keys@.len(),
{
    let mut ord: Vec<usize> = Vec::new();
    let mut n: usize = 0;
    while n < keys.len()
        invariant
            n <= keys.len(),
            ord@ == ascending(keys@, n as nat),
            ord@.len() == n,
            forall|i: int| 0 <= i < ord@.len() ==> (#[trigger] ord@[i]) < n,
        decreases keys.len() - n,
    {
        let t: i128 = keys[n];
        let mut p: usize = ord.len();
        assert(ord@.take(p as int) == ord@);
        while p > 0 && keys[ord[p - 1]] > t
            invariant
                p <= ord.len(),
                n < keys.len(),
                forall|i: int| 0 <= i < ord@.len() ==> (#[trigger] ord@[i]) < n,
                slot(keys@, ord@, t) == slot(keys@, ord@.take(p as int), t),
            decreases p,
        {
            assert(ord@.take(p as int).drop_last() == ord@.take(p - 1));
            p -= 1;
        }
        assert(slot(keys@, ord@.take(p as int), t) == p);
        let ghost old_ord = ord@;
        ord.insert(p, n);
        assert forall|i: int| 0 <= i < ord@.len() implies (#[trigger] ord@[i]) < n + 1 by {
            if i < p {
                assert(ord@[i] == old_ord[i]);
            } else if i > p {
                assert(ord@[i] == old_ord[i - 1]);
            }
        }
        n += 1;
    }
    ord
}

/// A limit that lets every row through.
pub const NO_LIMIT: i64 = -1;

/// How many of `n` rows a limit lets through. A negative limit is no limit.
pub open spec fn limited(limit: i64, n: nat) -> nat {
    if 0 <= limit < n {
        limit as nat
    } else {
        n
    }
}

/// The indices of the newest rows first, at most `limit` of them. Of rows with
/// one time, the later stored is the newer.
pub open spec fn newest_first(times: Seq<i64>, limit: i64) -> Seq<usize> {
    let keys = times.map_values(|t: i64| t as i128);
    ascending(keys, keys.len()).reverse().take(limited(limit, times.len()) as int)
}

pub fn newest(times: &Vec<i64>, limit: i64) -> (r: Vec<usize>)
    ensures
        r@ == newest_first(times@, limit),
        forall|i: int| 0 <= i < r@.len() ==> (#[trigger] r@[i]) < times@.len(),
{
    let mut keys: Vec<i128> = Vec::new();
    let mut i: usize = 0;
    let ghost v = times@.map_values(|t: i64| t as i128);
    while i < times.len()
        invariant
            i <= times.len(),
            v == times@.map_values(|t: i64| t as i128),
            keys@ == v.take(i as int),
        decreases times.len() - i,
    {
        keys.push(times[i] as i128);
        assert(keys@ == v.take(i + 1));
        i += 1;
    }
    assert(keys@ == v);
    let ord = ascending_order(&keys);
    let n: usize = ord.len();
    let wanted: usize = if 0 <= limit && (limit as u64) < n as u64 { limit as usize } else { n };
    assert(wanted == limited(limit, times@.len()));
    let mut out: Vec<usize> = Vec::new();
    let mut k: usize = 0;
    while k < wanted
        invariant
            k <= wanted <= n,
            n == ord@.len(),
            n == times@.len(),
            out@ == ord@.reverse().take(k as int),
            forall|i: int| 0 <= i < ord@.len() ==> (#[trigger] ord@[i]) < times@.len(),
            forall|i: int| 0 <= i < out@.len() ==> (#[trigger] out@[i]) < times@.len(),
        decreases wanted - k,
    {
        out.push(ord[n - 1 - k]);
        assert(out@ == ord@.reverse().take(k + 1));
        k += 1;
    }
    out
}

// ---------------------------------------------------------------------------
// The newest row
// ---------------------------------------------------------------------------

/// The newest of the rows that `keep` lets through.
pub open spec fn newest_kept(times: Seq<i64>, keep: Seq<bool>) -> Option<int>
    decreases times.len(),
{
    if times.len() == 0 {
        None
    } else {
        let prev = newest_kept(times.drop_last(), keep.drop_last());
        if keep.last() && (prev is None || times[prev->0] <= times.last()) {
            Some(times.len() - 1)
        } else {
            prev
        }
    }
}

/// The newest kept row is kept, and no kept row is newer.
pub proof fn law_newest_kept(times: Seq<i64>, keep: Seq<bool>)
    requires
        times.len() == keep.len(),
    ensures
        match newest_kept(times, keep) {
            Some(i) => {
                &&& 0 <= i < times.len()
                &&& keep[i]
                &&& forall|j: int|
                    0 <= j < times.len() && #[trigger] keep[j] ==> times[j] < times[i] || (times[j]
                        == times[i] && j <= i)
            },
            None => forall|j: int| 0 <= j < times.len() ==> !#[trigger] keep[j],
        },
    decreases times.len(),
{
    if times.len() > 0 {
        let t = times.drop_last();
        let k = keep.drop_last();
        law_newest_kept(t, k);
        assert forall|j: int| 0 <= j < t.len() implies k[j] == #[trigger] keep[j] && t[j]
            == times[j] by {}
    }
}

pub fn newest_of(times: &Vec<i64>, keep: &Vec<bool>) -> (r: Option<usize>)
    requires
        times@.len() == keep@.len(),
    ensures
        match r {
            Some(i) => newest_kept(times@, keep@) == Some(i as int) && i < times@.len(),
            None => newest_kept(times@, keep@) is None,
        },
{
    let mut best: Option<usize> = None;
    let mut i: usize = 0;
    while i < times.len()
        invariant
            i <= times.len(),
            times@.len() == keep@.len(),
            match best {
                Some(b) => newest_kept(times@.take(i as int), keep@.take(i as int)) == Some(
                    b as int,
                ) && b < i,
                None => newest_kept(times@.take(i as int), keep@.take(i as int)) is None,
            },
        decreases times.len() - i,
    {
        assert(times@.take(i + 1).drop_last() == times@.take(i as int));
        assert(keep@.take(i + 1).drop_last() == keep@.take(i as int));
        if keep[i] {
            match best {
                Some(b) => {
                    if times[b] <= times[i] {
                        best = Some(i);
                    }
                },
                None => {
                    best = Some(i);
                },
            }
        }
        i += 1;
    }
    assert(times@.take(times@.len() as int) == times@);
    assert(keep@.take(keep@.len() as int) == keep@);
    best
}

// ---------------------------------------------------------------------------
// Values
// ---------------------------------------------------------------------------

/// Where `x` belongs among sorted values.
pub open spec fn place(s: Seq<u64>, x: u64) -> nat
    decreases s.len(),
{
    if s.len() > 0 && s.last() > x {
        place(s.drop_last(), x)
    } else {
        s.len()
    }
}

/// The values in ascending order.
pub open spec fn sorted(s: Seq<u64>) -> Seq<u64>
    decreases s.len(),
{
    if s.len() == 0 {
        s
    } else {
        let before = sorted(s.drop_last());
        before.insert(place(before, s.last()) as int, s.last())
    }
}

pub open spec fn is_ascending(s: Seq<u64>) -> bool {
    forall|i: int, j: int| 0 <= i <= j < s.len() ==> #[trigger] s[i] <= #[trigger] s[j]
}

proof fn lemma_place(s: Seq<u64>, x: u64)
    requires
        is_ascending(s),
    ensures
        place(s, x) <= s.len(),
        forall|i: int| 0 <= i < place(s, x) ==> #[trigger] s[i] <= x,
        forall|i: int| place(s, x) <= i < s.len() ==> x < #[trigger] s[i],
    decreases s.len(),
{
    if s.len() > 0 && s.last() > x {
        let d = s.drop_last();
        assert(is_ascending(d)) by {
            assert forall|i: int, j: int| 0 <= i <= j < d.len() implies #[trigger] d[i]
                <= #[trigger] d[j] by {
                assert(s[i] <= s[j]);
            }
        }
        lemma_place(d, x);
        assert forall|i: int| 0 <= i < d.len() implies d[i] == #[trigger] s[i] by {}
    } else if s.len() > 0 {
        assert forall|i: int| 0 <= i < s.len() implies #[trigger] s[i] <= x by {
            assert(s[i] <= s[s.len() - 1]);
        }
    }
}

/// Sorting keeps the values and puts them in ascending order.
pub proof fn law_sorted(s: Seq<u64>)
    ensures
        sorted(s).len() == s.len(),
        is_ascending(sorted(s)),
        sorted(s).to_multiset() == s.to_multiset(),
    decreases s.len(),
{
    if s.len() > 0 {
        let d = s.drop_last();
        law_sorted(d);
        let b = sorted(d);
        let x = s.last();
        lemma_place(b, x);
        let p = place(b, x) as int;
        let r = b.insert(p, x);
        assert forall|i: int, j: int| 0 <= i <= j < r.len() implies #[trigger] r[i]
            <= #[trigger] r[j] by {
            if i < p && j < p {
                assert(b[i] <= b[j]);
            } else if i < p && j > p {
                assert(b[i] <= b[j - 1]);
            } else if i > p {
                assert(b[i - 1] <= b[j - 1]);
            }
        }
        assert(r.remove(p) == b);
        assert(r[p] == x);
        r.to_multiset_ensures();
        assert(r.contains(x));
        assert(r.to_multiset() =~= b.to_multiset().insert(x));
        vstd::seq_lib::to_multiset_build(d, x);
        assert(d.push(x) == s);
    }
}

pub fn sort(s: &Vec<u64>) -> (r: Vec<u64>)
    ensures
        r@ == sorted(s@),
        r@.len() == s@.len(),
{
    let mut out: Vec<u64> = Vec::new();
    let mut n: usize = 0;
    assert(s@.take(0) == Seq::<u64>::empty());
    while n < s.len()
        invariant
            n <= s.len(),
            out@ == sorted(s@.take(n as int)),
            out@.len() == n,
        decreases s.len() - n,
    {
        let x: u64 = s[n];
        assert(s@.take(n + 1).drop_last() == s@.take(n as int));
        let mut p: usize = out.len();
        assert(out@.take(p as int) == out@);
        while p > 0 && out[p - 1] > x
            invariant
                p <= out.len(),
                place(out@, x) == place(out@.take(p as int), x),
            decreases p,
        {
            assert(out@.take(p as int).drop_last() == out@.take(p - 1));
            p -= 1;
        }
        assert(place(out@.take(p as int), x) == p);
        out.insert(p, x);
        n += 1;
    }
    assert(s@.take(s@.len() as int) == s@);
    out
}

/// The `p`-th percentile of sorted values, by linear interpolation between the
/// two nearest ranks, cut to a whole number.
pub open spec fn percentile_of(s: Seq<u64>, p: nat) -> u64 {
    if s.len() == 0 {
        0
    } else {
        let rank = p * (s.len() - 1);
        let lo = rank / 100;
        let part = rank % 100;
        if part == 0 {
            s[lo]
        } else {
            (s[lo] + (s[lo + 1] - s[lo]) * part / 100) as u64
        }
    }
}

proof fn lemma_rank(n: int, p: int)
    requires
        n > 0,
        0 <= p <= 100,
    ensures
        0 <= p * (n - 1) / 100 <= n - 1,
        p * (n - 1) % 100 != 0 ==> p * (n - 1) / 100 + 1 <= n - 1,
        0 <= p * (n - 1),
{
    let m = n - 1;
    assert(0 <= p * m <= 100 * m) by (nonlinear_arith)
        requires
            0 <= p <= 100,
            m >= 0,
    ;
}

/// A percentile lies between the two values that it interpolates, and so between
/// the least and the greatest.
pub proof fn law_percentile_between(s: Seq<u64>, p: nat)
    requires
        s.len() > 0,
        p <= 100,
        is_ascending(s),
    ensures
        ({
            let rank = p * (s.len() - 1);
            &&& 0 <= rank / 100 < s.len()
            &&& s[rank / 100] <= percentile_of(s, p)
            &&& rank % 100 != 0 ==> percentile_of(s, p) <= s[rank / 100 + 1]
        }),
        s[0] <= percentile_of(s, p) <= s[s.len() - 1],
{
    let n = s.len() as int;
    lemma_rank(n, p as int);
    let rank = p * (n - 1);
    let lo = rank / 100;
    let part = rank % 100;
    assert(s[0] <= s[lo] <= s[n - 1]);
    if part != 0 {
        let a = s[lo] as int;
        let b = s[lo + 1] as int;
        assert(a <= b);
        assert(0 <= (b - a) * part / 100 <= b - a) by (nonlinear_arith)
            requires
                a <= b,
                0 <= part < 100,
        ;
        assert(s[lo + 1] <= s[n - 1]);
    }
}

/// A higher percentile is never smaller.
pub proof fn law_percentiles_ascend(s: Seq<u64>, p: nat, q: nat)
    requires
        s.len() > 0,
        p <= q <= 100,
        is_ascending(s),
    ensures
        percentile_of(s, p) <= percentile_of(s, q),
{
    let n = s.len() as int;
    let m = n - 1;
    lemma_rank(n, p as int);
    lemma_rank(n, q as int);
    law_percentile_between(s, p);
    law_percentile_between(s, q);
    let a = p * m;
    let b = q * m;
    assert(a <= b) by (nonlinear_arith)
        requires
            a == p * m,
            b == q * m,
            p <= q,
            m >= 0,
    ;
    if a / 100 < b / 100 {
        if a % 100 != 0 {
            assert(s[a / 100 + 1] <= s[b / 100]);
        } else {
            assert(s[a / 100] <= s[b / 100]);
        }
    } else if a % 100 != 0 {
        let x = s[a / 100] as int;
        let y = s[a / 100 + 1] as int;
        let f = a % 100;
        let g = b % 100;
        assert(x <= y);
        assert((y - x) * f / 100 <= (y - x) * g / 100) by (nonlinear_arith)
            requires
                x <= y,
                0 <= f <= g,
        ;
        assert(0 <= (y - x) * g / 100 <= y - x) by (nonlinear_arith)
            requires
                x <= y,
                0 <= g < 100,
        ;
        assert(0 <= (y - x) * f / 100 <= y - x) by (nonlinear_arith)
            requires
                x <= y,
                0 <= f < 100,
        ;
    }
}

/// The `p`-th percentile of values that are already sorted.
pub fn percentile(s: &[u64], p: u64) -> (r: u64)
    requires
        p <= 100,
        is_ascending(s@),
    ensures
        r == percentile_of(s@, p as nat),
{
    let n: usize = s.len();
    if n == 0 {
        return 0;
    }
    proof {
        lemma_rank(n as int, p as int);
        law_percentile_between(s@, p as nat);
        assert(p * (n - 1) <= 100 * 0xffff_ffff_ffff_ffff) by (nonlinear_arith)
            requires
                0 <= p <= 100,
                0 <= n - 1 <= 0xffff_ffff_ffff_ffff,
        ;
    }
    let rank: u128 = p as u128 * (n - 1) as u128;
    let lo: usize = (rank / 100) as usize;
    let part: u128 = rank % 100;
    if part == 0 {
        s[lo]
    } else {
        let a: u128 = s[lo] as u128;
        let b: u128 = s[lo + 1] as u128;
        assert(s@[lo as int] <= s@[lo + 1]);
        assert((b - a) * part <= 0xffff_ffff_ffff_ffff * 100) by (nonlinear_arith)
            requires
                0 <= b - a <= 0xffff_ffff_ffff_ffff,
                0 <= part < 100,
        ;
        (a + (b - a) * part / 100) as u64
    }
}

/// Sorting keeps the values, each as often as it was there, and no value stands
/// before a lesser one.
pub proof fn law_sorting_keeps_the_values(s: Seq<u64>, i: int, j: int, x: u64)
    requires
        0 <= i <= j < s.len(),
    ensures
        sorted(s).len() == s.len(),
        sorted(s)[i] <= sorted(s)[j],
        sorted(s).to_multiset().count(x) == s.to_multiset().count(x),
{
    law_sorted(s);
}

/// Of indices ordered by ascending key no one stands before one with a lesser key,
/// and of equal keys the earlier index comes first.
pub proof fn law_lesser_keys_come_first(keys: Seq<i128>, i: int, j: int)
    requires
        keys.len() <= usize::MAX,
        0 <= i < j < keys.len(),
    ensures
        ({
            let ord = ascending(keys, keys.len());
            &&& ord.len() == keys.len()
            &&& ord[i] != ord[j]
            &&& keys[ord[i] as int] <= keys[ord[j] as int]
            &&& keys[ord[i] as int] == keys[ord[j] as int] ==> ord[i] < ord[j]
        }),
{
    law_ascending_is_the_order(keys, keys.len());
    let ord = ascending(keys, keys.len());
    assert(before(keys, ord[i], ord[j]));
}

/// A limit cuts a list to so many rows and never makes it longer; a negative one cuts
/// nothing.
pub proof fn law_limits_cut(limit: i64, n: nat)
    ensures
        limit < 0 ==> limited(limit, n) == n,
        limit >= 0 ==> limited(limit, n) <= limit && limited(limit, n) <= n,
        limit >= 0 ==> limited(limit, n) == limit || limited(limit, n) == n,
{
}

/// A percentile stands so far on the way from one rank to the next as its own rank
/// does, but for less than one unit. The lowest is the least value, the highest the
/// greatest, and the middle one of an odd number of values is the value in the
/// middle.
pub proof fn law_percentiles_follow_the_ranks(s: Seq<u64>, p: nat)
    requires
        s.len() > 0,
        p <= 100,
        forall|i: int, j: int| 0 <= i <= j < s.len() ==> #[trigger] s[i] <= #[trigger] s[j],
    ensures
        percentile_of(s, 0) == s[0],
        percentile_of(s, 100) == s[s.len() - 1],
        s.len() % 2 == 1 ==> percentile_of(s, 50) == s[s.len() as int / 2],
        forall|k: int|
            0 <= k < s.len() && 100 * k == p * (s.len() - 1) ==> percentile_of(s, p)
                == #[trigger] s[k],
        forall|k: int|
            0 <= k < s.len() - 1 && 100 * k < p * (s.len() - 1) < 100 * (k + 1) ==> {
                let part = p * (s.len() - 1) - 100 * k;
                let gap = s[k + 1] - s[k];
                100 * (percentile_of(s, p) - #[trigger] s[k]) <= gap * part < 100 * (percentile_of(
                    s,
                    p,
                ) - s[k] + 1)
            },
{
    let n = s.len() as int;
    let rank = p * (n - 1);
    assert(0 <= rank) by (nonlinear_arith)
        requires
            rank == p * (n - 1),
            n > 0,
            p >= 0,
    ;
    assert(is_ascending(s));
    assert forall|k: int| 0 <= k < n && 100 * k == rank implies percentile_of(s, p)
        == #[trigger] s[k] by {
        assert(rank / 100 == k && rank % 100 == 0);
    }
    assert forall|k: int| 0 <= k < n - 1 && 100 * k < rank < 100 * (k + 1) implies {
        let part = rank - 100 * k;
        let gap = s[k + 1] - s[k];
        100 * (percentile_of(s, p) - #[trigger] s[k]) <= gap * part < 100 * (percentile_of(s, p)
            - s[k] + 1)
    } by {
        let part = rank - 100 * k;
        let gap = s[k + 1] - s[k];
        assert(rank / 100 == k && rank % 100 == part);
        let x = gap * part;
        assert(0 <= x <= gap * 100) by (nonlinear_arith)
            requires
                x == gap * part,
                gap >= 0,
                0 <= part <= 100,
        ;
        assert(0 <= x / 100 <= gap);
    }
    assert(0 * (n - 1) == 0 && 100 * (n - 1) == (n - 1) * 100);
    assert((100 * (n - 1)) / 100 == n - 1 && (100 * (n - 1)) % 100 == 0);
    if n % 2 == 1 {
        let m = n / 2;
        assert(50 * (n - 1) == 100 * m);
    }
}

} // verus!
