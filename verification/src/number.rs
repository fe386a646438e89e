//! Numbers as text: integers, decimal readings and rounded decimals.
//!
//! Measurements are whole numbers in this crate. A reading that a tool prints
//! with a decimal point is kept in billionths (nine decimal places).

use vstd::prelude::*;

use crate::text;

verus! {

// ---------------------------------------------------------------------------
// Digits
// ---------------------------------------------------------------------------

pub open spec fn is_digit(c: char) -> bool {
    '0' <= c <= '9'
}

pub open spec fn digit_value(c: char) -> nat {
    (c as u32 - 0x30) as nat
}

pub open spec fn all_digits(s: Seq<char>) -> bool {
    forall|i: int| 0 <= i < s.len() ==> is_digit(#[trigger] s[i])
}

/// The number that a row of decimal digits denotes.
pub open spec fn decimal(s: Seq<char>) -> nat
    decreases s.len(),
{
    if s.len() == 0 {
        0
    } else {
        10 * decimal(s.drop_last()) + digit_value(s.last())
    }
}

pub fn digit(c: char) -> (r: bool)
    ensures
        r == is_digit(c),
{
    let n: u32 = c as u32;
    0x30 <= n && n <= 0x39
}

/// How many digits stand at the start of `s`.
pub open spec fn digits_len(s: Seq<char>) -> nat
    decreases s.len(),
{
    if s.len() == 0 || !is_digit(s[0]) {
        0
    } else {
        1 + digits_len(s.skip(1))
    }
}

pub proof fn lemma_digits_len(s: Seq<char>)
    ensures
        digits_len(s) <= s.len(),
        all_digits(s.take(digits_len(s) as int)),
        digits_len(s) < s.len() ==> !is_digit(s[digits_len(s) as int]),
    decreases s.len(),
{
    if s.len() > 0 && is_digit(s[0]) {
        lemma_digits_len(s.skip(1));
        let n = digits_len(s.skip(1)) as int;
        assert forall|i: int| 0 <= i < n + 1 implies is_digit(#[trigger] s.take(n + 1)[i]) by {
            if i > 0 {
                assert(s.skip(1).take(n)[i - 1] == s[i]);
            }
        }
    }
}

pub fn leading_digits(s: &[char]) -> (r: usize)
    ensures
        r == digits_len(s@),
        r <= s@.len(),
{
    let mut i: usize = 0;
    assert(s@.skip(0) == s@);
    while i < s.len() && digit(s[i])
        invariant
            i <= s.len(),
            digits_len(s@) == i + digits_len(s@.skip(i as int)),
        decreases s.len() - i,
    {
        assert(s@.skip(i as int).skip(1) == s@.skip(i + 1));
        i += 1;
    }
    i
}

pub fn only_digits(s: &[char]) -> (r: bool)
    ensures
        r == all_digits(s@),
{
    let mut i: usize = 0;
    while i < s.len()
        invariant
            i <= s.len(),
            forall|k: int| 0 <= k < i ==> is_digit(#[trigger] s@[k]),
        decreases s.len() - i,
    {
        if !digit(s[i]) {
            return false;
        }
        i += 1;
    }
    true
}

proof fn lemma_decimal_prefix(s: Seq<char>, i: int)
    requires
        0 <= i <= s.len(),
    ensures
        decimal(s.take(i)) <= decimal(s),
    decreases s.len() - i,
{
    if i < s.len() {
        lemma_decimal_prefix(s, i + 1);
        assert(s.take(i + 1).drop_last() == s.take(i));
    } else {
        assert(s.take(i) == s);
    }
}

/// The number that `s` denotes if it is at most `max`, otherwise `None`.
pub fn decimal_up_to(s: &[char], max: u64) -> (r: Option<u64>)
    requires
        all_digits(s@),
    ensures
        r == (if decimal(s@) <= max {
            Some(decimal(s@) as u64)
        } else {
            None
        }),
{
    let mut acc: u64 = 0;
    let mut i: usize = 0;
    while i < s.len()
        invariant
            i <= s.len(),
            all_digits(s@),
            acc == decimal(s@.take(i as int)),
            acc <= max,
        decreases s.len() - i,
    {
        assert(s@.take(i + 1).drop_last() == s@.take(i as int));
        assert(is_digit(s@[i as int]));
        let d: u64 = s[i] as u64 - 0x30;
        let next: u128 = acc as u128 * 10 + d as u128;
        if next > max as u128 {
            proof {
                lemma_decimal_prefix(s@, i + 1);
            }
            return None;
        }
        acc = next as u64;
        i += 1;
    }
    assert(s@.take(s@.len() as int) == s@);
    Some(acc)
}

// ---------------------------------------------------------------------------
// Reading integers
// ---------------------------------------------------------------------------

/// The integer that `s` denotes: an optional sign and at least one digit.
pub open spec fn integer(s: Seq<char>) -> Option<int> {
    let signed = s.len() > 0 && (s[0] == '+' || s[0] == '-');
    let body = if signed {
        s.skip(1)
    } else {
        s
    };
    if body.len() > 0 && all_digits(body) {
        if signed && s[0] == '-' {
            Some(-(decimal(body) as int))
        } else {
            Some(decimal(body) as int)
        }
    } else {
        None
    }
}

/// The integer that `s` denotes if it fits in an `i64`.
pub open spec fn parse_i64(s: Seq<char>) -> Option<i64> {
    match integer(s) {
        Some(n) if i64::MIN <= n <= i64::MAX => Some(n as i64),
        _ => None,
    }
}

/// The integer that `s` denotes if it fits in a `u32` and has no minus sign.
pub open spec fn parse_u32(s: Seq<char>) -> Option<u32> {
    match integer(s) {
        Some(n) if s[0] != '-' && n <= u32::MAX => Some(n as u32),
        _ => None,
    }
}

pub fn read_i64(s: &[char]) -> (r: Option<i64>)
    ensures
        r == parse_i64(s@),
{
    let signed = s.len() > 0 && (s[0] == '+' || s[0] == '-');
    let body: &[char] = if signed { &s[1..s.len()] } else { s };
    assert(body@ == if signed { s@.skip(1) } else { s@ });
    if body.len() == 0 || !only_digits(body) {
        return None;
    }
    if signed && s[0] == '-' {
        match decimal_up_to(body, 0x8000_0000_0000_0000) {
            Some(n) => {
                let m: i128 = -(n as i128);
                Some(m as i64)
            },
            None => None,
        }
    } else {
        match decimal_up_to(body, 0x7fff_ffff_ffff_ffff) {
            Some(n) => Some(n as i64),
            None => None,
        }
    }
}

pub fn read_u32(s: &[char]) -> (r: Option<u32>)
    ensures
        r == parse_u32(s@),
{
    let signed = s.len() > 0 && (s[0] == '+' || s[0] == '-');
    let body: &[char] = if signed { &s[1..s.len()] } else { s };
    assert(body@ == if signed { s@.skip(1) } else { s@ });
    if body.len() == 0 || !only_digits(body) || s[0] == '-' {
        return None;
    }
    match decimal_up_to(body, 0xffff_ffff) {
        Some(n) => Some(n as u32),
        None => None,
    }
}

// ---------------------------------------------------------------------------
// Writing integers
// ---------------------------------------------------------------------------

pub open spec fn digit_char(n: nat) -> char {
    (0x30 + n) as char
}

/// The decimal digits of `n`, without leading zeros.
pub open spec fn dec(n: nat) -> Seq<char>
    decreases n,
{
    if n < 10 {
        seq![digit_char(n)]
    } else {
        dec(n / 10).push(digit_char(n % 10))
    }
}

/// The decimal form of an integer.
pub open spec fn dec_int(n: int) -> Seq<char> {
    if n < 0 {
        seq!['-'] + dec((-n) as nat)
    } else {
        dec(n as nat)
    }
}

/// Writing a number and reading the digits back gives the number.
pub proof fn lemma_decimal_of_dec(n: nat)
    ensures
        decimal(dec(n)) == n,
        all_digits(dec(n)),
        dec(n).len() > 0,
    decreases n,
{
    if n < 10 {
        assert(seq![digit_char(n)].drop_last() == Seq::<char>::empty());
        assert(decimal(Seq::<char>::empty()) == 0);
    } else {
        lemma_decimal_of_dec(n / 10);
        assert(dec(n).drop_last() == dec(n / 10));
    }
}

/// An `i64` is read back from its decimal form.
pub proof fn law_integers_round_trip(n: i64)
    ensures
        parse_i64(dec_int(n as int)) == Some(n),
{
    if n < 0 {
        lemma_decimal_of_dec((-n) as nat);
        assert(dec_int(n as int).skip(1) == dec((-n) as nat));
    } else {
        lemma_decimal_of_dec(n as nat);
        assert(is_digit(dec(n as nat)[0]));
    }
}

fn digit_of(n: u64) -> (r: char)
    requires
        n < 10,
    ensures
        r == digit_char(n as nat),
{
    let b: u8 = 0x30u8 + n as u8;
    b as char
}

/// Appends the decimal digits of `n`.
pub fn push_u64(out: &mut String, n: u64)
    ensures
        final(out)@ == old(out)@ + dec(n as nat),
    decreases n,
{
    if n >= 10 {
        push_u64(out, n / 10);
    }
    let ghost mid = out@;
    out.push(digit_of(n % 10));
    assert(out@ == old(out)@ + dec(n as nat)) by {
        if n >= 10 {
            assert(mid == old(out)@ + dec(n as nat / 10));
        }
    }
}

/// Appends the decimal form of `n`.
pub fn push_i64(out: &mut String, n: i64)
    ensures
        final(out)@ == old(out)@ + dec_int(n as int),
{
    if n < 0 {
        out.push('-');
        let m: i128 = -(n as i128);
        push_u64(out, m as u64);
        assert(out@ == old(out)@ + dec_int(n as int));
    } else {
        push_u64(out, n as u64);
    }
}

pub fn u64_text(n: u64) -> (r: String)
    ensures
        r@ == dec(n as nat),
{
    let mut out = String::new();
    push_u64(&mut out, n);
    assert(out@ == dec(n as nat));
    out
}

pub fn i64_text(n: i64) -> (r: String)
    ensures
        r@ == dec_int(n as int),
{
    let mut out = String::new();
    push_i64(&mut out, n);
    assert(out@ == dec_int(n as int));
    out
}


// ---------------------------------------------------------------------------
// Reading decimals
// ---------------------------------------------------------------------------

/// A decimal reading in billionths of its unit.
///
/// Digits past the ninth decimal place are dropped, and a magnitude that does
/// not fit is held at `i64::MAX` billionths.
#[derive(Clone, Copy, Debug, PartialEq, Eq, Structural)]
pub struct Reading {
    pub billionths: i64,
}

pub open spec fn pow10(n: nat) -> nat
    decreases n,
{
    if n == 0 {
        1
    } else {
        10 * pow10((n - 1) as nat)
    }
}

/// The digits of an unsigned number and the power of ten that its last digit
/// counts: whole digits, an optional fraction, an optional exponent.
pub open spec fn number_parts(s: Seq<char>) -> Option<(Seq<char>, int)> {
    let a = digits_len(s) as int;
    let dot = a < s.len() && s[a] == '.';
    let b = if dot {
        digits_len(s.skip(a + 1)) as int
    } else {
        0
    };
    let digits = if dot {
        s.take(a) + s.skip(a + 1).take(b)
    } else {
        s.take(a)
    };
    let rest = if dot {
        s.skip(a + 1).skip(b)
    } else {
        s.skip(a)
    };
    if digits.len() == 0 {
        None
    } else if rest.len() == 0 {
        Some((digits, -b))
    } else if rest[0] == 'e' || rest[0] == 'E' {
        match integer(rest.skip(1)) {
            Some(e) => Some((digits, e - b)),
            None => None,
        }
    } else {
        None
    }
}

/// The whole part of `digits` times `10^shift`.
pub open spec fn scaled(digits: Seq<char>, shift: int) -> nat {
    if shift >= 0 {
        decimal(digits) * pow10(shift as nat)
    } else if digits.len() + shift > 0 {
        decimal(digits.take(digits.len() + shift))
    } else {
        0
    }
}

pub open spec fn capped(n: nat) -> nat {
    if n <= i64::MAX {
        n
    } else {
        i64::MAX as nat
    }
}

pub open spec fn lower_ascii(s: Seq<char>) -> Seq<char> {
    s.map_values(|c: char| text::ascii_lower(c))
}

/// The billionths of an unsigned decimal. Infinity is the greatest value and a
/// not-a-number is zero, as in a cast to an integer.
pub open spec fn magnitude(s: Seq<char>) -> Option<nat> {
    if lower_ascii(s) == "inf"@ || lower_ascii(s) == "infinity"@ {
        Some(i64::MAX as nat)
    } else if lower_ascii(s) == "nan"@ {
        Some(0)
    } else {
        match number_parts(s) {
            Some(p) => Some(capped(scaled(p.0, p.1 + 9))),
            None => None,
        }
    }
}

/// The reading that `s` denotes, if `s` is a decimal number.
pub open spec fn reading(s: Seq<char>) -> Option<Reading> {
    let signed = s.len() > 0 && (s[0] == '+' || s[0] == '-');
    let body = if signed {
        s.skip(1)
    } else {
        s
    };
    match magnitude(body) {
        Some(m) => if signed && s[0] == '-' {
            Some(Reading { billionths: -(m as int) as i64 })
        } else {
            Some(Reading { billionths: m as i64 })
        },
        None => None,
    }
}

proof fn lemma_pow10_increases(a: nat, b: nat)
    requires
        a <= b,
    ensures
        0 < pow10(a) <= pow10(b),
    decreases b,
{
    if a < b {
        lemma_pow10_increases(a, (b - 1) as nat);
    } else if a > 0 {
        lemma_pow10_increases((a - 1) as nat, (a - 1) as nat);
    }
}

/// The whole part of `digits` times `10^shift`, held at `i64::MAX`.
fn scale(digits: &[char], shift: i128) -> (r: u64)
    requires
        all_digits(digits@),
        -0x2_0000_0000_0000_0000 < shift,
    ensures
        r == capped(scaled(digits@, shift as int)),
{
    let max: u64 = 0x7fff_ffff_ffff_ffff;
    let n: i128 = digits.len() as i128;
    if shift < 0 {
        if n + shift <= 0 {
            return 0;
        }
        let head = &digits[0..(n + shift) as usize];
        assert(head@ == digits@.take(digits@.len() + shift));
        return match decimal_up_to(head, max) {
            Some(v) => v,
            None => max,
        };
    }
    let ghost d = decimal(digits@);
    let mut acc: u64 = match decimal_up_to(digits, max) {
        Some(v) => v,
        None => {
            proof {
                lemma_pow10_increases(0, shift as nat);
                assert(d * pow10(shift as nat) >= d) by (nonlinear_arith)
                    requires
                        pow10(shift as nat) >= 1,
                ;
            }
            return max;
        },
    };
    if acc == 0 {
        assert(d * pow10(shift as nat) == 0) by (nonlinear_arith)
            requires
                d == 0,
        ;
        return 0;
    }
    let mut k: i128 = 0;
    assert(d * pow10(0) == d) by (nonlinear_arith)
        requires
            pow10(0) == 1,
    ;
    while k < shift
        invariant
            0 <= k <= shift,
            max == i64::MAX,
            acc <= max,
            d == decimal(digits@),
            acc == d * pow10(k as nat),
        decreases shift - k,
    {
        let next: u128 = acc as u128 * 10;
        proof {
            assert(d * pow10((k + 1) as nat) == 10 * (d * pow10(k as nat))) by (nonlinear_arith)
                requires
                    pow10((k + 1) as nat) == 10 * pow10(k as nat),
            ;
        }
        if next > max as u128 {
            proof {
                lemma_pow10_increases((k + 1) as nat, shift as nat);
                assert(d * pow10(shift as nat) >= d * pow10((k + 1) as nat)) by (nonlinear_arith)
                    requires
                        pow10(shift as nat) >= pow10((k + 1) as nat),
                ;
            }
            return max;
        }
        acc = next as u64;
        k += 1;
    }
    acc
}

/// An exponent, held at `u64::MAX` on either side.
fn read_exponent(s: &[char]) -> (r: Option<i128>)
    ensures
        match (r, integer(s@)) {
            (Some(e), Some(i)) => {
                &&& -0x1_0000_0000_0000_0000 <= e <= 0x1_0000_0000_0000_0000
                &&& -0x1_0000_0000_0000_0000 < e < 0x1_0000_0000_0000_0000 ==> e == i
                &&& e == 0x1_0000_0000_0000_0000 ==> i >= e && s@.len() >= 20
                &&& e == -0x1_0000_0000_0000_0000 ==> i <= e && s@.len() >= 20
            },
            (None, None) => true,
            _ => false,
        },
{
    let signed = s.len() > 0 && (s[0] == '+' || s[0] == '-');
    let body: &[char] = if signed { &s[1..s.len()] } else { s };
    assert(body@ == if signed { s@.skip(1) } else { s@ });
    if body.len() == 0 || !only_digits(body) {
        return None;
    }
    let size: i128 = match decimal_up_to(body, 0xffff_ffff_ffff_ffff) {
        Some(v) => v as i128,
        None => {
            proof {
                lemma_decimal_below(body@);
                lemma_pow10_values();
                if body@.len() < 20 {
                    lemma_pow10_increases(body@.len(), 19);
                }
            }
            0x1_0000_0000_0000_0000
        },
    };
    if signed && s[0] == '-' {
        Some(-size)
    } else {
        Some(size)
    }
}

proof fn lemma_decimal_below(s: Seq<char>)
    requires
        all_digits(s),
    ensures
        decimal(s) < pow10(s.len()),
    decreases s.len(),
{
    if s.len() > 0 {
        assert(is_digit(s[s.len() - 1]));
        assert(all_digits(s.drop_last())) by {
            assert forall|i: int| 0 <= i < s.len() - 1 implies is_digit(
                #[trigger] s.drop_last()[i],
            ) by {
                assert(is_digit(s[i]));
            }
        }
        lemma_decimal_below(s.drop_last());
    }
}

pub proof fn lemma_pow10_values()
    ensures
        pow10(0) == 1,
        pow10(1) == 10,
        pow10(2) == 100,
        pow10(3) == 1000,
        pow10(9) == 1_000_000_000,
        pow10(19) == 10_000_000_000_000_000_000,
{
    reveal_with_fuel(pow10, 10);
    assert(pow10(9) == 1_000_000_000);
    assert(pow10(18) == 1_000_000_000_000_000_000);
    assert(pow10(19) == 10 * pow10(18));
}

fn lower_of(s: &[char]) -> (r: Vec<char>)
    ensures
        r@ == lower_ascii(s@),
{
    let mut out: Vec<char> = Vec::new();
    let mut i: usize = 0;
    while i < s.len()
        invariant
            i <= s.len(),
            out@ == lower_ascii(s@).take(i as int),
        decreases s.len() - i,
    {
        let n: u32 = s[i] as u32;
        let c: char = if 0x41 <= n && n <= 0x5a {
            (n as u8 + 32u8) as char
        } else {
            s[i]
        };
        out.push(c);
        i += 1;
    }
    out
}

/// The billionths of an unsigned number with digits.
fn read_number(s: &[char]) -> (r: Option<u64>)
    ensures
        r == (match number_parts(s@) {
            Some(p) => Some(capped(scaled(p.0, p.1 + 9)) as u64),
            None => None,
        }),
{
    proof {
        lemma_digits_len(s@);
    }
    let a: usize = leading_digits(s);
    let whole = &s[0..a];
    assert(whole@ == s@.take(a as int));
    let mut digits: Vec<char> = Vec::new();
    digits.extend_from_slice(whole);
    assert(digits@ == s@.take(a as int));
    let mut b: usize = 0;
    let dot = a < s.len() && s[a] == '.';
    let rest: &[char] = if dot {
        let after = &s[a + 1..s.len()];
        assert(after@ == s@.skip(a + 1));
        proof {
            lemma_digits_len(after@);
        }
        b = leading_digits(after);
        let frac = &after[0..b];
        assert(frac@ == after@.take(b as int));
        let ghost w = digits@;
        digits.extend_from_slice(frac);
        assert(digits@ == w + frac@);
        assert forall|i: int| 0 <= i < digits@.len() implies is_digit(#[trigger] digits@[i]) by {
            if i < w.len() {
                assert(is_digit(w[i]));
            } else {
                assert(is_digit(frac@[i - w.len()]));
            }
        }
        let tail = &after[b..after.len()];
        assert(tail@ == after@.skip(b as int));
        tail
    } else {
        let tail = &s[a..s.len()];
        assert(tail@ == s@.skip(a as int));
        tail
    };
    if digits.len() == 0 {
        return None;
    }
    if rest.len() == 0 {
        return Some(scale(&digits, 9 - b as i128));
    }
    if rest[0] != 'e' && rest[0] != 'E' {
        return None;
    }
    let exp = &rest[1..rest.len()];
    assert(exp@ == rest@.skip(1));
    match read_exponent(exp) {
        Some(e) => {
            let shift: i128 = e - b as i128 + 9;
            let ghost i = integer(exp@)->0;
            proof {
                if e != i {
                    lemma_far_exponent(digits@, shift as int, i - b + 9);
                }
            }
            Some(scale(&digits, shift))
        },
        None => None,
    }
}

/// Past the ends of the representable range the exponent no longer matters.
proof fn lemma_far_exponent(digits: Seq<char>, near: int, far: int)
    requires
        (far >= near >= 20) || (far <= near && digits.len() + near <= 0 && near < 0),
    ensures
        capped(scaled(digits, near)) == capped(scaled(digits, far)),
{
    if far >= near && near >= 20 {
        lemma_pow10_values();
        lemma_pow10_increases(19, near as nat);
        lemma_pow10_increases(near as nat, far as nat);
        let d = decimal(digits);
        if d == 0 {
            assert(d * pow10(near as nat) == 0 && d * pow10(far as nat) == 0) by (nonlinear_arith)
                requires
                    d == 0,
            ;
        } else {
            assert(d * pow10(near as nat) >= pow10(19) && d * pow10(far as nat) >= pow10(19))
                by (nonlinear_arith)
                requires
                    d >= 1,
                    pow10(near as nat) >= pow10(19),
                    pow10(far as nat) >= pow10(19),
            ;
        }
    }
}

/// Reads a decimal number.
pub fn read_decimal(s: &[char]) -> (r: Option<Reading>)
    ensures
        r == reading(s@),
{
    let signed = s.len() > 0 && (s[0] == '+' || s[0] == '-');
    let body: &[char] = if signed { &s[1..s.len()] } else { s };
    assert(body@ == if signed { s@.skip(1) } else { s@ });
    let low = lower_of(body);
    let size: u64 = if text::same(&low, "inf") || text::same(&low, "infinity") {
        0x7fff_ffff_ffff_ffff
    } else if text::same(&low, "nan") {
        0
    } else {
        match read_number(body) {
            Some(v) => v,
            None => {
                return None;
            },
        }
    };
    if signed && s[0] == '-' {
        Some(Reading { billionths: -(size as i64) })
    } else {
        Some(Reading { billionths: size as i64 })
    }
}


// ---------------------------------------------------------------------------
// Writing decimals
// ---------------------------------------------------------------------------

/// `a / b` to the nearest whole number, ties to the even one.
pub open spec fn round_half_even(a: nat, b: nat) -> nat {
    let q = a / b;
    let r = a % b;
    if 2 * r < b {
        q
    } else if 2 * r > b {
        q + 1
    } else {
        q + q % 2
    }
}

/// `a / b` to the nearest whole number, ties upwards.
pub open spec fn round_half_up(a: nat, b: nat) -> nat {
    if 2 * (a % b) < b {
        a / b
    } else {
        a / b + 1
    }
}

/// The last `width` decimal digits of `n`, with leading zeros.
pub open spec fn padded(n: nat, width: nat) -> Seq<char>
    decreases width,
{
    if width == 0 {
        Seq::empty()
    } else {
        padded(n / 10, (width - 1) as nat).push(digit_char(n % 10))
    }
}

/// `n` units of `10^-places`, written with `places` decimal places.
pub open spec fn point_text(n: nat, places: nat) -> Seq<char> {
    if places == 0 {
        dec(n)
    } else {
        dec(n / pow10(places)) + seq!['.'] + padded(n % pow10(places), places)
    }
}

/// The double nearest to `p / q`, as a fraction: a number of 53 significant
/// binary digits, the even one of two.
pub open spec fn double(p: nat, q: nat) -> (nat, nat)
    decreases
            (if p < q * 0x10_0000_0000_0000 {
                q * 0x10_0000_0000_0000 - p
            } else if p >= q * 0x20_0000_0000_0000 {
                p - q * 0x20_0000_0000_0000 + 1
            } else {
                0
            }),
    when q > 0
{
    if p == 0 {
        (0, 1)
    } else if p < q * 0x10_0000_0000_0000 {
        let (a, b) = double(2 * p, q);
        (a, 2 * b)
    } else if p >= q * 0x20_0000_0000_0000 {
        let (a, b) = double(p, 2 * q);
        (2 * a, b)
    } else {
        (round_half_even(p, q), 1)
    }
}

/// The double nearest to a whole number, itself a whole number.
pub open spec fn whole_double(n: nat) -> nat {
    if n <= 0x20_0000_0000_0000 {
        n
    } else {
        double(n, 1).0
    }
}

/// A fraction written with `places` decimal places: the nearest such decimal,
/// ties to an even last digit.
pub open spec fn fraction_text(f: (nat, nat), places: nat) -> Seq<char> {
    point_text(round_half_even(f.0 * pow10(places), f.1), places)
}

/// The double that stands for `value / unit`, written with `places` decimal
/// places. A tie of decimals is one of doubles only if a double can hold it.
pub open spec fn decimal_text(value: nat, unit: nat, places: nat) -> Seq<char> {
    fraction_text(double(value, unit), places)
}

/// The double that stands for a whole number, divided by another and written with
/// `places` decimal places.
pub open spec fn quotient_text(n: nat, by: nat, places: nat) -> Seq<char> {
    fraction_text(double(whole_double(n), by), places)
}

/// The double nearest to `p / q`, as a fraction.
pub fn double_of(p: u128, q: u128) -> (r: (u128, u128))
    requires
        0 < q,
        p < 0x800_0000_0000_0000_0000_0000_0000_0000,
        q <= 0x40_0000_0000_0000_0000 || q * 0x10_0000_0000_0000 <= p,
    ensures
        (r.0 as nat, r.1 as nat) == double(p as nat, q as nat),
        r.1 > 0,
        p >= q * 0x10_0000_0000_0000 ==> r.1 == 1 && r.0 * q <= 2 * p && r.0
            >= 0x10_0000_0000_0000,
        p < q * 0x10_0000_0000_0000 ==> r.0 <= 0x40_0000_0000_0000 && r.1 * p <= q
            * 0x20_0000_0000_0000,
        p == 0 ==> r.1 == 1,
    decreases
            (if p < q * 0x10_0000_0000_0000 {
                q * 0x10_0000_0000_0000 - p
            } else if p >= q * 0x20_0000_0000_0000 {
                p - q * 0x20_0000_0000_0000 + 1
            } else {
                0
            }),
{
    if p == 0 {
        (0, 1)
    } else if p < q * 0x10_0000_0000_0000 {
        let (a, b) = double_of(2 * p, q);
        proof {
            let (x, y, z) = (a as int, b as int, p as int);
            if 2 * p >= q * 0x10_0000_0000_0000 {
                assert(x <= 0x40_0000_0000_0000) by (nonlinear_arith)
                    requires
                        x * q <= 2 * (2 * z),
                        2 * z < q * 0x20_0000_0000_0000,
                        q > 0,
                ;
            } else {
                assert((2 * y) * z == y * (2 * z)) by (nonlinear_arith);
            }
            assert(2 * y <= q * 0x20_0000_0000_0000) by (nonlinear_arith)
                requires
                    (2 * y) * z <= q * 0x20_0000_0000_0000,
                    z >= 1,
                    y >= 0,
            ;
        }
        (a, 2 * b)
    } else if p >= q * 0x20_0000_0000_0000 {
        let (a, b) = double_of(p, 2 * q);
        proof {
            let x = a as int;
            assert((2 * x) * q == x * (2 * q)) by (nonlinear_arith);
            assert(2 * x <= 2 * p) by (nonlinear_arith)
                requires
                    (2 * x) * q <= 2 * p,
                    q >= 1,
                    x >= 0,
            ;
        }
        (2 * a, b)
    } else {
        let a: u128 = nearest_even(p, q);
        proof {
            let x = a as int;
            assert(x * q <= p + q) by (nonlinear_arith)
                requires
                    x <= p / q + 1,
                    q > 0,
            ;
            assert(p / q >= 0x10_0000_0000_0000) by (nonlinear_arith)
                requires
                    p >= q * 0x10_0000_0000_0000,
                    q > 0,
            ;
        }
        (a, 1)
    }
}

/// The double nearest to a whole number.
pub fn whole_double_of(n: u64) -> (r: u128)
    ensures
        r == whole_double(n as nat),
        r <= 2 * n,
        n <= 0x20_0000_0000_0000 ==> r == n,
        n > 0x20_0000_0000_0000 ==> r >= 0x10_0000_0000_0000,
{
    if n <= 0x20_0000_0000_0000 {
        n as u128
    } else {
        let (a, _) = double_of(n as u128, 1);
        a
    }
}

pub fn nearest_even(a: u128, b: u128) -> (r: u128)
    requires
        0 < b < 0x8000_0000_0000_0000_0000_0000_0000_0000,
        a < u128::MAX,
    ensures
        r == round_half_even(a as nat, b as nat),
{
    let q: u128 = a / b;
    let m: u128 = a % b;
    proof {
        assert(q <= a) by (nonlinear_arith)
            requires
                q == a / b,
                b > 0,
        ;
    }
    if m < b - m {
        q
    } else if m > b - m {
        q + 1
    } else {
        q + q % 2
    }
}

pub fn nearest_up(a: u128, b: u128) -> (r: u128)
    requires
        0 < b < 0x8000_0000_0000_0000_0000_0000_0000_0000,
        a < u128::MAX,
    ensures
        r == round_half_up(a as nat, b as nat),
{
    let q: u128 = a / b;
    let m: u128 = a % b;
    proof {
        assert(q <= a) by (nonlinear_arith)
            requires
                q == a / b,
                b > 0,
        ;
    }
    if m < b - m {
        q
    } else {
        q + 1
    }
}

/// Appends the decimal digits of `n`.
pub fn push_u128(out: &mut String, n: u128)
    ensures
        final(out)@ == old(out)@ + dec(n as nat),
    decreases n,
{
    if n >= 10 {
        push_u128(out, n / 10);
    }
    let ghost mid = out@;
    out.push(digit_of((n % 10) as u64));
    assert(out@ == old(out)@ + dec(n as nat)) by {
        if n >= 10 {
            assert(mid == old(out)@ + dec(n as nat / 10));
        }
    }
}

pub fn push_padded(out: &mut String, n: u128, width: u64)
    ensures
        final(out)@ == old(out)@ + padded(n as nat, width as nat),
    decreases width,
{
    if width == 0 {
        assert(out@ == old(out)@ + padded(n as nat, width as nat));
        return;
    }
    push_padded(out, n / 10, width - 1);
    let ghost mid = out@;
    out.push(digit_of((n % 10) as u64));
    assert(out@ == old(out)@ + padded(n as nat, width as nat)) by {
        assert(mid == old(out)@ + padded(n as nat / 10, (width - 1) as nat));
    }
}

fn power(places: u64) -> (r: u128)
    requires
        places <= 3,
    ensures
        r == pow10(places as nat),
        1 <= r <= 1000,
{
    proof {
        lemma_pow10_values();
    }
    if places == 0 {
        1
    } else if places == 1 {
        10
    } else if places == 2 {
        100
    } else {
        1000
    }
}

/// Appends a fraction with `places` decimal places.
pub fn push_fraction(out: &mut String, a: u128, b: u128, places: u64)
    requires
        a <= 0x1_0000_0000_0000_0000_0000_0000,
        0 < b < 0x8000_0000_0000_0000_0000_0000_0000_0000,
        places <= 3,
    ensures
        final(out)@ == old(out)@ + fraction_text((a as nat, b as nat), places as nat),
{
    let p: u128 = power(places);
    assert(0 <= a * p <= 0x1_0000_0000_0000_0000_0000_0000 * 1000) by (nonlinear_arith)
        requires
            0 <= a <= 0x1_0000_0000_0000_0000_0000_0000,
            1 <= p <= 1000,
    ;
    let n: u128 = nearest_even(a * p, b);
    if places == 0 {
        push_u128(out, n);
        return;
    }
    push_u128(out, n / p);
    out.push('.');
    push_padded(out, n % p, places);
    assert(out@ == old(out)@ + fraction_text((a as nat, b as nat), places as nat));
}

/// Appends a double that `double_of` gave.
fn push_double(out: &mut String, p: u128, q: u64, places: u64)
    requires
        p <= 0x2_0000_0000_0000_0000,
        q > 0,
        places <= 3,
    ensures
        final(out)@ == old(out)@ + fraction_text(double(p as nat, q as nat), places as nat),
{
    let (a, b) = double_of(p, q as u128);
    proof {
        let (x, y) = (a as int, b as int);
        if p >= q * 0x10_0000_0000_0000 {
            assert(x <= 2 * p) by (nonlinear_arith)
                requires
                    x * q <= 2 * p,
                    q >= 1,
                    x >= 0,
            ;
        } else if p > 0 {
            assert(y <= q * 0x20_0000_0000_0000) by (nonlinear_arith)
                requires
                    y * p <= q * 0x20_0000_0000_0000,
                    p >= 1,
                    y >= 0,
            ;
        }
    }
    push_fraction(out, a, b, places);
}

/// Appends `value / unit` with `places` decimal places.
pub fn push_decimal(out: &mut String, value: u64, unit: u64, places: u64)
    requires
        unit > 0,
        places <= 3,
    ensures
        final(out)@ == old(out)@ + decimal_text(value as nat, unit as nat, places as nat),
{
    push_double(out, value as u128, unit, places);
}

/// Appends the quotient of two whole numbers with `places` decimal places.
pub fn push_quotient(out: &mut String, n: u64, by: u64, places: u64)
    requires
        by > 0,
        places <= 3,
    ensures
        final(out)@ == old(out)@ + quotient_text(n as nat, by as nat, places as nat),
{
    let w: u128 = whole_double_of(n);
    push_double(out, w, by, places);
}

/// `value / unit` with `places` decimal places.
pub fn decimal_of(value: u64, unit: u64, places: u64) -> (r: String)
    requires
        unit > 0,
        places <= 3,
    ensures
        r@ == decimal_text(value as nat, unit as nat, places as nat),
{
    let mut out = String::new();
    push_decimal(&mut out, value, unit, places);
    assert(out@ == decimal_text(value as nat, unit as nat, places as nat));
    out
}

/// The hexadecimal digit for `n < 16`.
pub open spec fn hex_char(n: nat) -> char {
    if n < 10 {
        (0x30 + n) as char
    } else {
        (0x61 + n - 10) as char
    }
}

/// The last `width` hexadecimal digits of `n`, with leading zeros.
pub open spec fn hex(n: nat, width: nat) -> Seq<char>
    decreases width,
{
    if width == 0 {
        Seq::empty()
    } else {
        hex(n / 16, (width - 1) as nat).push(hex_char(n % 16))
    }
}

pub fn push_hex(out: &mut String, n: u64, width: u64)
    ensures
        final(out)@ == old(out)@ + hex(n as nat, width as nat),
    decreases width,
{
    if width == 0 {
        assert(out@ == old(out)@ + hex(n as nat, width as nat));
        return;
    }
    push_hex(out, n / 16, width - 1);
    let ghost mid = out@;
    let d: u8 = (n % 16) as u8;
    let c: char = if d < 10 { (0x30u8 + d) as char } else { (0x61u8 + d - 10) as char };
    out.push(c);
    assert(out@ == old(out)@ + hex(n as nat, width as nat)) by {
        assert(mid == old(out)@ + hex(n as nat / 16, (width - 1) as nat));
    }
}

// ---------------------------------------------------------------------------
// What digits mean
// ---------------------------------------------------------------------------

/// Digits are read by their place: a further digit multiplies what stands before it by
/// ten.
pub proof fn law_digits_are_read_by_place(a: Seq<char>, b: Seq<char>, c: char)
    ensures
        decimal(Seq::empty()) == 0,
        '0' <= c <= '9' ==> decimal(a.push(c)) == 10 * decimal(a) + (c as u32 - '0' as u32),
        decimal(a + b) == decimal(a) * pow10(b.len()) + decimal(b),
    decreases b.len(),
{
    assert(a.push(c).drop_last() == a);
    if b.len() == 0 {
        assert(a + b == a);
        let (x, y) = (decimal(a) as int, pow10(b.len()) as int);
        assert(x * y == x) by (nonlinear_arith)
            requires
                y == 1,
        ;
    } else {
        law_digits_are_read_by_place(a, b.drop_last(), c);
        assert((a + b).drop_last() == a + b.drop_last());
        let (x, y) = (decimal(a) as int, pow10((b.len() - 1) as nat) as int);
        assert(10 * (x * y) == x * (10 * y)) by (nonlinear_arith);
        assert((a + b).last() == b.last());
    }
}

/// A written number holds digits only, the first of which is no needless zero.
pub proof fn law_numbers_are_written_plainly(n: nat)
    ensures
        decimal(dec(n)) == n,
        all_digits(dec(n)),
        n > 0 ==> dec(n)[0] != '0',
        n == 0 ==> dec(n) == seq!['0'],
    decreases n,
{
    lemma_decimal_of_dec(n);
    if n >= 10 {
        law_numbers_are_written_plainly(n / 10);
        assert(dec(n)[0] == dec(n / 10)[0]);
    }
}

/// A sign before the digits is read as such. Numbers without a sign take no minus.
pub proof fn law_signs_are_read(s: Seq<char>)
    requires
        s.len() > 0,
        all_digits(s),
    ensures
        integer(s) == Some(decimal(s) as int),
        integer(seq!['+'] + s) == Some(decimal(s) as int),
        integer(seq!['-'] + s) == Some(-(decimal(s) as int)),
        parse_u32(seq!['-'] + s) is None,
        decimal(s) <= u32::MAX ==> parse_u32(s) == Some(decimal(s) as u32),
        decimal(s) > u32::MAX ==> parse_u32(s) is None,
        decimal(s) > i64::MAX ==> parse_i64(s) is None,
        decimal(s) <= i64::MAX ==> parse_i64(s) == Some(decimal(s) as i64),
        integer(Seq::empty()) is None,
{
    assert(is_digit(s[0]));
    assert((seq!['+'] + s).skip(1) == s);
    assert((seq!['-'] + s).skip(1) == s);
}

/// A text with anything but digits behind its sign is no number.
pub proof fn law_other_texts_are_no_numbers(s: Seq<char>, i: int)
    requires
        0 <= i < s.len(),
        !('0' <= s[i] <= '9'),
        i > 0 || (s[i] != '+' && s[i] != '-'),
    ensures
        integer(s) is None,
        parse_i64(s) is None,
        parse_u32(s) is None,
{
    if s[0] == '+' || s[0] == '-' {
        assert(s.skip(1)[i - 1] == s[i]);
        assert(!is_digit(s.skip(1)[i - 1]));
    } else {
        assert(!is_digit(s[i]));
    }
}

proof fn lemma_pow10_add(a: nat, b: nat)
    ensures
        pow10(a + b) == pow10(a) * pow10(b),
    decreases a,
{
    if a > 0 {
        lemma_pow10_add((a - 1) as nat, b);
        let (x, y) = (pow10((a - 1) as nat) as int, pow10(b) as int);
        assert(10 * (x * y) == (10 * x) * y) by (nonlinear_arith);
    } else {
        assert(1 * pow10(b) == pow10(b));
    }
}

/// A reading holds what its digits say, to the billionth, and the sign before them.
pub proof fn law_decimals_are_read(a: Seq<char>, f: Seq<char>)
    requires
        a.len() > 0,
        all_digits(a),
        f.len() <= 9,
        all_digits(f),
        decimal(a) * 1_000_000_000 + decimal(f) * pow10((9 - f.len()) as nat) <= i64::MAX,
    ensures
        ({
            let n = decimal(a) * 1_000_000_000 + decimal(f) * pow10((9 - f.len()) as nat);
            let s = a + seq!['.'] + f;
            &&& reading(s) == Some(Reading { billionths: n as i64 })
            &&& reading(seq!['+'] + s) == Some(Reading { billionths: n as i64 })
            &&& reading(seq!['-'] + s) == Some(Reading { billionths: -(n as int) as i64 })
        }),
        reading(a) == Some(Reading { billionths: (decimal(a) * 1_000_000_000) as i64 }),
{
    let s = a + seq!['.'] + f;
    let k = (9 - f.len()) as nat;
    let n = decimal(a) * 1_000_000_000 + decimal(f) * pow10(k);
    assert(is_digit(a[0]));
    assert(s[0] == a[0]);
    lemma_leading_digits(a, seq!['.'] + f);
    lemma_leading_digits(a, Seq::empty());
    lemma_leading_digits(f, Seq::empty());
    assert(a + (seq!['.'] + f) == s);
    assert(a + Seq::<char>::empty() == a);
    assert(f + Seq::<char>::empty() == f);
    assert(s[a.len() as int] == '.');
    assert(s.take(a.len() as int) == a);
    assert(s.skip(a.len() as int + 1) == f);
    assert(f.take(f.len() as int) == f);
    assert(f.skip(f.len() as int).len() == 0);
    assert(a.take(a.len() as int) == a);
    assert(a.skip(a.len() as int).len() == 0);
    assert(number_parts(s) == Some((a + f, -(f.len() as int))));
    assert(number_parts(a) == Some((a, 0int)));
    law_digits_are_read_by_place(a, f, '0');
    lemma_pow10_add(f.len(), k);
    lemma_pow10_values();
    let (x, y, z, w) = (decimal(a) as int, pow10(f.len()) as int, decimal(f) as int, pow10(k) as int);
    assert((x * y + z) * w == x * (y * w) + z * w) by (nonlinear_arith);
    assert(scaled(a + f, k as int) == n);
    assert(scaled(a, 9) == decimal(a) * 1_000_000_000);
    lemma_no_word(s);
    lemma_no_word(a);
    assert(z * w >= 0) by (nonlinear_arith)
        requires
            z >= 0,
            w >= 0,
    ;
    assert((seq!['+'] + s).skip(1) == s);
    assert((seq!['-'] + s).skip(1) == s);
}

proof fn lemma_no_word(s: Seq<char>)
    requires
        s.len() > 0,
        is_digit(s[0]),
    ensures
        lower_ascii(s) != "inf"@,
        lower_ascii(s) != "infinity"@,
        lower_ascii(s) != "nan"@,
{
    reveal_strlit("inf");
    reveal_strlit("infinity");
    reveal_strlit("nan");
    assert("inf"@[0] == 'i' && "infinity"@[0] == 'i' && "nan"@[0] == 'n');
    assert(lower_ascii(s)[0] == s[0]);
}

proof fn lemma_leading_digits(a: Seq<char>, rest: Seq<char>)
    requires
        all_digits(a),
        rest.len() > 0 ==> !is_digit(rest[0]),
    ensures
        digits_len(a + rest) == a.len(),
    decreases a.len(),
{
    let s = a + rest;
    if a.len() > 0 {
        assert(is_digit(a[0]));
        assert(s[0] == a[0]);
        let b = a.skip(1);
        assert forall|i: int| 0 <= i < b.len() implies is_digit(#[trigger] b[i]) by {
            assert(is_digit(a[i + 1]));
        }
        lemma_leading_digits(b, rest);
        assert(s.skip(1) == b + rest);
    } else {
        assert(s == rest);
    }
}

/// Rounding takes the nearest whole number. Of two that are equally near one rounding
/// takes the even one and the other the greater one.
pub proof fn law_rounding_is_to_the_nearest(a: nat, b: nat)
    requires
        b > 0,
    ensures
        ({
            let e = round_half_even(a, b) as int;
            let u = round_half_up(a, b) as int;
            &&& 2 * (e * b - a) <= b
            &&& 2 * (a - e * b) <= b
            &&& 2 * (e * b - a) == b || 2 * (a - e * b) == b ==> e % 2 == 0
            &&& 2 * (u * b - a) <= b
            &&& 2 * (a - u * b) < b
        }),
{
    let (q, r) = (a as int / b as int, a as int % b as int);
    vstd::arithmetic::div_mod::lemma_fundamental_div_mod(a as int, b as int);
    assert(q * b == b * q) by (nonlinear_arith);
    assert((q + 1) * b == b * q + b) by (nonlinear_arith);
}

/// The digits behind the point are as many as there are places, and worth what is left of
/// the whole.
pub proof fn law_places_are_filled_with_zeros(n: nat, width: nat)
    requires
        n < pow10(width),
    ensures
        padded(n, width).len() == width,
        all_digits(padded(n, width)),
        decimal(padded(n, width)) == n,
    decreases width,
{
    if width > 0 {
        law_places_are_filled_with_zeros(n / 10, (width - 1) as nat);
        assert(padded(n, width).drop_last() == padded(n / 10, (width - 1) as nat));
    }
}

/// A number with a point is read back: the digits before the point are the whole, those
/// behind it the rest, as many as there are places.
pub proof fn law_points_divide_whole_and_rest(n: nat, places: nat)
    requires
        places > 0,
    ensures
        exists|w: Seq<char>, f: Seq<char>|
            #![trigger w + seq!['.'] + f]
            point_text(n, places) == w + seq!['.'] + f && f.len() == places && all_digits(w)
                && all_digits(f) && decimal(w) * pow10(places) + decimal(f) == n,
        point_text(n, 0) == dec(n),
{
    let p = pow10(places);
    lemma_pow10_increases(0, places);
    lemma_decimal_of_dec(n / p);
    vstd::arithmetic::div_mod::lemma_fundamental_div_mod(n as int, p as int);
    law_places_are_filled_with_zeros(n % p, places);
    let w = dec(n / p);
    let f = padded(n % p, places);
    assert(decimal(w) * p == p * (n / p)) by (nonlinear_arith)
        requires
            decimal(w) == n / p,
    ;
    assert(point_text(n, places) == w + seq!['.'] + f);
}

/// A double is within half a unit of the 53rd binary digit of what it stands for, and has
/// no more digits than that.
pub proof fn law_doubles_are_near(p: nat, q: nat)
    requires
        q > 0,
        p > 0,
    ensures
        ({
            let (a, b) = double(p, q);
            &&& b > 0
            &&& 0x20_0000_0000_0000 * (a * q - p * b) <= p * b
            &&& 0x20_0000_0000_0000 * (p * b - a * q) <= p * b
            &&& p < q * 0x20_0000_0000_0000 ==> a <= 0x20_0000_0000_0000
        }),
    decreases
            (if p < q * 0x10_0000_0000_0000 {
                q * 0x10_0000_0000_0000 - p
            } else if p >= q * 0x20_0000_0000_0000 {
                p - q * 0x20_0000_0000_0000 + 1
            } else {
                0
            }),
{
    if p < q * 0x10_0000_0000_0000 {
        law_doubles_are_near(2 * p, q);
        let (a, b) = double(2 * p, q);
        assert((2 * p) * b == p * (2 * b)) by (nonlinear_arith);
    } else if p >= q * 0x20_0000_0000_0000 {
        law_doubles_are_near(p, 2 * q);
        let (a, b) = double(p, 2 * q);
        assert(a * (2 * q) == (2 * a) * q) by (nonlinear_arith);
    } else {
        law_rounding_is_to_the_nearest(p, q);
        let a = round_half_even(p, q);
        vstd::arithmetic::div_mod::lemma_fundamental_div_mod(p as int, q as int);
        let d = p as int / q as int;
        assert(d < 0x20_0000_0000_0000) by (nonlinear_arith)
            requires
                q * d <= p,
                p < q * 0x20_0000_0000_0000,
                q > 0,
        ;
        assert(p * 1 == p);
    }
}

/// A whole number that a double can hold stands for itself.
pub proof fn law_small_numbers_are_doubles(n: nat)
    requires
        n <= 0x20_0000_0000_0000,
    ensures
        whole_double(n) == n,
{
}

/// Hexadecimal digits are read by their place, the last one worth the least.
pub proof fn law_hexadecimal_digits(n: nat, d: nat, width: nat)
    requires
        d < 16,
    ensures
        hex(n, width).len() == width,
        hex(16 * n + d, width + 1) == hex(n, width).push(
            seq![
                '0', '1', '2', '3', '4', '5', '6', '7', '8', '9', 'a', 'b', 'c', 'd', 'e', 'f',
            ][d as int],
        ),
    decreases width,
{
    if width > 0 {
        law_hexadecimal_digits(n / 16, n % 16, (width - 1) as nat);
    }
    assert((16 * n + d) / 16 == n);
    assert((16 * n + d) % 16 == d);
}

/// Digits behind the ninth place are cut off.
pub proof fn law_further_digits_are_cut(a: Seq<char>, f: Seq<char>)
    requires
        a.len() > 0,
        all_digits(a),
        f.len() > 9,
        all_digits(f),
    ensures
        reading(a + seq!['.'] + f) == reading(a + seq!['.'] + f.take(9)),
{
    let g = f.take(9);
    assert forall|i: int| 0 <= i < g.len() implies is_digit(#[trigger] g[i]) by {
        assert(is_digit(f[i]));
    }
    lemma_parts(a, f);
    lemma_parts(a, g);
    assert((a + f).take(a.len() as int + 9) == a + g);
    let d = decimal(a + g) as int;
    let one = pow10(0) as int;
    assert(d * one == d) by (nonlinear_arith)
        requires
            one == 1,
    ;
    lemma_no_word(a + seq!['.'] + f);
    lemma_no_word(a + seq!['.'] + g);
}

proof fn lemma_parts(a: Seq<char>, f: Seq<char>)
    requires
        a.len() > 0,
        all_digits(a),
        all_digits(f),
    ensures
        number_parts(a + seq!['.'] + f) == Some((a + f, -(f.len() as int))),
        is_digit((a + seq!['.'] + f)[0]),
{
    let s = a + seq!['.'] + f;
    assert(is_digit(a[0]));
    assert(s[0] == a[0]);
    lemma_leading_digits(a, seq!['.'] + f);
    lemma_leading_digits(f, Seq::empty());
    assert(a + (seq!['.'] + f) == s);
    assert(f + Seq::<char>::empty() == f);
    assert(s[a.len() as int] == '.');
    assert(s.take(a.len() as int) == a);
    assert(s.skip(a.len() as int + 1) == f);
    assert(f.take(f.len() as int) == f);
    assert(f.skip(f.len() as int).len() == 0);
}

/// An exponent moves the point, whichever letter it stands behind.
pub proof fn law_exponents_move_the_point(a: Seq<char>, x: Seq<char>, k: int)
    requires
        a.len() > 0,
        all_digits(a),
        integer(x) == Some(k),
        k >= -9,
        decimal(a) * pow10((k + 9) as nat) <= i64::MAX,
    ensures
        reading(a + seq!['e'] + x) == Some(
            Reading { billionths: (decimal(a) * pow10((k + 9) as nat)) as i64 },
        ),
        reading(a + seq!['E'] + x) == reading(a + seq!['e'] + x),
{
    lemma_exponent(a, 'e', x);
    lemma_exponent(a, 'E', x);
}

proof fn lemma_exponent(a: Seq<char>, c: char, x: Seq<char>)
    requires
        a.len() > 0,
        all_digits(a),
        c == 'e' || c == 'E',
        integer(x) is Some,
    ensures
        number_parts(a + seq![c] + x) == Some((a, integer(x)->0)),
        reading(a + seq![c] + x) == Some(
            Reading { billionths: capped(scaled(a, integer(x)->0 + 9)) as i64 },
        ),
{
    let s = a + seq![c] + x;
    assert(is_digit(a[0]));
    assert(s[0] == a[0]);
    lemma_leading_digits(a, seq![c] + x);
    assert(a + (seq![c] + x) == s);
    assert(s[a.len() as int] == c);
    assert(s.take(a.len() as int) == a);
    assert(s.skip(a.len() as int).skip(1) == x);
    lemma_no_word(s);
}

} // verus!
