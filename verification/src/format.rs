//! Human-readable sizes and voltages.
//!
//! The sizes are printed the way `format!` prints an `f64`: the integer is
//! converted to the nearest double, divided, and the exact binary value is
//! rounded half to even at the requested number of decimals. Everything here
//! computes that result with integers.

use vstd::prelude::*;
use vstd::arithmetic::power2::{
    pow2, lemma_pow2_pos, lemma_pow2_unfold, lemma_pow2_adds, lemma_pow2_strictly_increases, lemma2_to64,
    lemma2_to64_rest,
};
use vstd::arithmetic::div_mod::lemma_fundamental_div_mod;
use crate::text::{chars_of, push_char};

verus! {

// ─── Decimal digits ───────────────────────────────────────────────────────────

/// The character of the decimal digit `d` (`d < 10`).
pub open spec fn digit_char(d: nat) -> char {
    if d == 0 {
        '0'
    } else if d == 1 {
        '1'
    } else if d == 2 {
        '2'
    } else if d == 3 {
        '3'
    } else if d == 4 {
        '4'
    } else if d == 5 {
        '5'
    } else if d == 6 {
        '6'
    } else if d == 7 {
        '7'
    } else if d == 8 {
        '8'
    } else {
        '9'
    }
}

/// The decimal representation of `n`, without leading zeros (`"0"` for zero).
pub open spec fn dec(n: nat) -> Seq<char>
    decreases n,
{
    if n < 10 {
        seq![digit_char(n)]
    } else {
        dec(n / 10).push(digit_char(n % 10))
    }
}

/// `n` tenths as a decimal with one fractional digit, e.g. `15` → `1.5`.
pub open spec fn tenths(n: nat) -> Seq<char> {
    dec(n / 10) + seq!['.'] + dec(n % 10)
}

fn digit_exec(d: u128) -> (c: char)
    requires
        d < 10,
    ensures
        c == digit_char(d as nat),
{
    if d == 0 {
        '0'
    } else if d == 1 {
        '1'
    } else if d == 2 {
        '2'
    } else if d == 3 {
        '3'
    } else if d == 4 {
        '4'
    } else if d == 5 {
        '5'
    } else if d == 6 {
        '6'
    } else if d == 7 {
        '7'
    } else if d == 8 {
        '8'
    } else {
        '9'
    }
}

/// Appends the decimal digits of `n`.
pub fn push_dec(out: &mut String, n: u128)
    ensures
        final(out)@ == old(out)@ + dec(n as nat),
    decreases n,
{
    let ghost start = out@;
    if n >= 10 {
        push_dec(out, n / 10);
    }
    push_char(out, digit_exec(n % 10));
    proof {
        if n >= 10 {
            assert(start + dec(n as nat) =~= start + dec((n / 10) as nat) + seq![
                digit_char((n % 10) as nat),
            ]);
        } else {
            assert(start + dec(n as nat) =~= start.push(digit_char((n % 10) as nat)));
        }
    }
}

/// Appends the characters of a literal.
pub fn push_lit(out: &mut String, lit: &str)
    ensures
        final(out)@ == old(out)@ + lit@,
{
    let cs = chars_of(lit);
    let ghost start = out@;
    let mut i: usize = 0;
    while i < cs.len()
        invariant
            i <= cs.len(),
            out@ == start + cs@.take(i as int),
        decreases cs.len() - i,
    {
        push_char(out, cs[i]);
        assert(start + cs@.take(i + 1) =~= (start + cs@.take(i as int)).push(cs@[i as int]));
        i = i + 1;
    }
    assert(cs@.take(cs.len() as int) =~= cs@);
}

/// Appends `n` tenths as `<n / 10>.<n % 10>`.
pub fn push_tenths(out: &mut String, n: u128)
    ensures
        final(out)@ == old(out)@ + tenths(n as nat),
{
    let ghost start = out@;
    push_dec(out, n / 10);
    push_char(out, '.');
    push_dec(out, n % 10);
    assert(out@ =~= start + tenths(n as nat));
}

// ─── Binary floating point ────────────────────────────────────────────────────

/// The number of binary digits of `a` (0 for zero).
pub open spec fn bits(a: nat) -> nat
    decreases a,
{
    if a == 0 {
        0
    } else {
        1 + bits(a / 2)
    }
}

/// `num / den` rounded to the nearest integer, ties to even (`den > 0`).
pub open spec fn rne(num: nat, den: nat) -> nat {
    let q = num / den;
    let r = num % den;
    if 2 * r > den || (2 * r == den && q % 2 == 1) {
        q + 1
    } else {
        q
    }
}

/// The value of `n as f64`: `n` rounded to 53 significant bits, ties to even.
pub open spec fn f64_of(n: nat) -> nat {
    if bits(n) <= 53 {
        n
    } else {
        let k = (bits(n) - 53) as nat;
        rne(n, pow2(k)) * pow2(k)
    }
}

proof fn lemma_bits_bound(a: nat, k: nat)
    requires
        a < pow2(k),
    ensures
        bits(a) <= k,
    decreases k,
{
    if a > 0 {
        if k == 0 {
            lemma2_to64();
        } else {
            lemma_pow2_unfold(k);
            lemma_bits_bound(a / 2, (k - 1) as nat);
        }
    }
}

proof fn lemma_bits_upper(a: nat)
    ensures
        a < pow2(bits(a)),
    decreases a,
{
    if a == 0 {
        lemma2_to64();
    } else {
        lemma_bits_upper(a / 2);
        lemma_pow2_unfold(bits(a));
    }
}

proof fn lemma_pow2_le_64(k: nat)
    requires
        k <= 64,
    ensures
        1 <= pow2(k) <= 0x10000000000000000,
{
    lemma_pow2_pos(k);
    lemma2_to64();
    if k < 64 {
        lemma_pow2_strictly_increases(k, 64);
    }
}

fn bits_exec(a: u128) -> (n: u32)
    ensures
        n == bits(a as nat),
        n <= 128,
{
    proof {
        lemma_bits_u128(a);
    }
    let mut x = a;
    let mut n: u32 = 0;
    while x > 0
        invariant
            n + bits(x as nat) == bits(a as nat),
            bits(a as nat) <= 128,
        decreases x,
    {
        proof {
            assert(bits(x as nat) == 1 + bits((x / 2) as nat));
        }
        x = x / 2;
        n = n + 1;
    }
    n
}

proof fn lemma_bits_u128(a: u128)
    ensures
        bits(a as nat) <= 128,
{
    lemma2_to64();
    lemma_pow2_adds(64, 64);
    lemma_bits_bound(a as nat, 128);
}

fn rne_exec(num: u128, den: u128) -> (r: u128)
    requires
        den > 0,
    ensures
        r == rne(num as nat, den as nat),
{
    let q = num / den;
    let r = num % den;
    if r > den - r || (r == den - r && q % 2 == 1) {
        proof {
            if den == 1 {
                assert(r == 0);
            }
            assert(q <= num / 2) by (nonlinear_arith)
                requires
                    q == num / den,
                    den >= 2,
            ;
        }
        q + 1
    } else {
        q
    }
}

/// `n as f64`, as the exact integer value of the double.
pub fn f64_value(n: u64) -> (r: u128)
    ensures
        r == f64_of(n as nat),
        r < 0x20000000000000000,
        n > 0 ==> r > 0,
{
    let b = bits_exec(n as u128);
    proof {
        lemma2_to64();
        lemma_bits_bound(n as nat, 64);
    }
    if b <= 53 {
        n as u128
    } else {
        let k = b - 53;
        let p = pow2_big(k);
        proof {
            lemma2_to64();
            if k < 11 {
                lemma_pow2_strictly_increases(k as nat, 11);
            }
            lemma_fundamental_div_mod(n as int, p as int);
        }
        let m = rne_exec(n as u128, p);
        proof {
            lemma_bits_lower(n as nat);
            lemma_pow2_strictly_increases(k as nat, (b - 1) as nat);
            lemma_div_ge(n as nat, 1, p as nat);
            assert(m * p > 0) by (nonlinear_arith)
                requires
                    m >= 1,
                    p > 0,
            ;
            assert(m * p <= n + p) by (nonlinear_arith)
                requires
                    m <= (n as int) / (p as int) + 1,
                    p > 0,
                    ((n as int) / (p as int)) * p <= n,
            ;
        }
        m * p
    }
}

// ─── Quotients as doubles ─────────────────────────────────────────────────────

/// Whether `num / den` is at least `2^t`.
pub open spec fn ratio_reaches(num: nat, den: nat, t: int) -> bool {
    if t >= 0 {
        num >= den * pow2(t as nat)
    } else {
        num * pow2((-t) as nat) >= den
    }
}

/// The exponent `L` with `2^L <= num / den < 2^(L + 1)`, for `num, den >= 1`:
/// with `t = bits(num) - bits(den)`, the quotient lies in `(2^(t - 1), 2^(t + 1))`.
pub open spec fn ratio_exponent(num: nat, den: nat) -> int {
    let t = bits(num) as int - bits(den) as int;
    if ratio_reaches(num, den, t) {
        t
    } else {
        t - 1
    }
}

/// The significand `m` of the double `m * 2^e` nearest to `num / den` (ties to
/// even), where `e = ratio_exponent(num, den) - 52`; `m` is in `[2^52, 2^53]`.
pub open spec fn quotient_significand(num: nat, den: nat) -> nat {
    let e = ratio_exponent(num, den) - 52;
    if e <= 0 {
        rne(num * pow2((-e) as nat), den)
    } else {
        rne(num, den * pow2(e as nat))
    }
}

/// `num / 2^s` rounded to the nearest integer, halves away from zero
/// (`f64::round` on a non-negative value).
pub open spec fn round_half_away(num: nat, s: nat) -> nat {
    (num + pow2(s) / 2) / pow2(s)
}

/// The RAM usage sample of `used` out of `total` kilobytes:
/// `(used as f64 / total as f64).clamp(0.0, 1.0) * 100.0` rounded, as an
/// integer (0 when `total` is 0).
///
/// Below a full ratio the quotient is the double `m * 2^e` with `e < 0`, so the
/// product with 100 is the double nearest to `m * 100` scaled by `2^e`.
pub open spec fn usage_percent_of(used: u64, total: u64) -> nat {
    let u = f64_of(used as nat);
    let t = f64_of(total as nat);
    if total == 0 || u == 0 {
        0
    } else if u >= t {
        100
    } else {
        let e = ratio_exponent(u, t) - 52;
        round_half_away(f64_of(quotient_significand(u, t) * 100), (-e) as nat)
    }
}

/// The temperature sample of a reading of `milli` thousandths of a degree:
/// `(milli as f64 / 1000.0).round().max(0.0)` as an integer.
pub open spec fn temp_sample_of(milli: i64) -> nat {
    if milli <= 0 {
        0
    } else {
        let a = f64_of(milli as nat);
        let e = ratio_exponent(a, 1000) - 52;
        let m = quotient_significand(a, 1000);
        if e >= 0 {
            m * pow2(e as nat)
        } else {
            round_half_away(m, (-e) as nat)
        }
    }
}

proof fn lemma_bits_lower(a: nat)
    requires
        a >= 1,
    ensures
        pow2((bits(a) - 1) as nat) <= a,
        bits(a) >= 1,
    decreases a,
{
    if a >= 2 {
        lemma_bits_lower(a / 2);
        assert(bits(a) == 1 + bits(a / 2));
        lemma_pow2_unfold(bits(a / 2));
        assert(pow2(bits(a / 2)) <= a);
    } else {
        assert(bits(a) == 1 + bits(a / 2));
        assert(bits(a / 2) == 0);
        lemma2_to64();
    }
}

proof fn lemma_pow2_le_127(k: nat)
    requires
        k <= 127,
    ensures
        1 <= pow2(k) <= 0x80000000000000000000000000000000,
{
    lemma_pow2_pos(k);
    lemma2_to64();
    lemma2_to64_rest();
    lemma_pow2_adds(64, 63);
    if k < 127 {
        lemma_pow2_strictly_increases(k, 127);
    }
}

fn pow2_big(k: u32) -> (r: u128)
    requires
        k <= 127,
    ensures
        r == pow2(k as nat),
        1 <= r <= 0x80000000000000000000000000000000,
{
    let mut r: u128 = 1;
    let mut i: u32 = 0;
    proof {
        lemma2_to64();
    }
    while i < k
        invariant
            i <= k <= 127,
            r == pow2(i as nat),
        decreases k - i,
    {
        proof {
            lemma_pow2_unfold((i + 1) as nat);
            lemma_pow2_le_127((i + 1) as nat);
        }
        r = r * 2;
        i = i + 1;
    }
    proof {
        lemma_pow2_le_127(k as nat);
    }
    r
}

/// `2^L <= num / den < 2^(L + 1)` for `L = ratio_exponent(num, den)`.
proof fn lemma_ratio_exponent(num: nat, den: nat)
    requires
        num >= 1,
        den >= 1,
    ensures
        ratio_reaches(num, den, ratio_exponent(num, den)),
        !ratio_reaches(num, den, ratio_exponent(num, den) + 1),
{
    let n1 = bits(num);
    let n2 = bits(den);
    let t = n1 as int - n2 as int;
    lemma_bits_lower(num);
    lemma_bits_lower(den);
    lemma_bits_upper(num);
    lemma_bits_upper(den);
    let p1 = pow2((n1 - 1) as nat);
    let q1 = pow2(n1);
    let p2 = pow2((n2 - 1) as nat);
    let q2 = pow2(n2);
    lemma_pow2_unfold(n1);
    lemma_pow2_unfold(n2);
    // num / den < 2^(t + 1)
    if t + 1 >= 0 {
        let k = (t + 1) as nat;
        lemma_pow2_adds((n2 - 1) as nat, k);
        assert(den * pow2(k) >= p2 * pow2(k)) by (nonlinear_arith)
            requires
                den >= p2,
        ;
        assert(!ratio_reaches(num, den, t + 1));
    } else {
        let k = (-(t + 1)) as nat;
        lemma_pow2_adds(n1, k);
        assert(num * pow2(k) < q1 * pow2(k)) by (nonlinear_arith)
            requires
                num < q1,
                pow2(k) > 0,
        ;
        lemma_pow2_pos(k);
        assert(!ratio_reaches(num, den, t + 1));
    }
    if !ratio_reaches(num, den, t) {
        // num / den > 2^(t - 1)
        if t - 1 >= 0 {
            let k = (t - 1) as nat;
            lemma_pow2_adds(k, n2);
            lemma_pow2_pos(k);
            assert(den * pow2(k) <= q2 * pow2(k)) by (nonlinear_arith)
                requires
                    den < q2,
                    pow2(k) > 0,
            ;
        } else {
            let k = (-(t - 1)) as nat;
            lemma_pow2_adds((n1 - 1) as nat, k);
            assert(num * pow2(k) >= p1 * pow2(k)) by (nonlinear_arith)
                requires
                    num >= p1,
            ;
        }
    }
}

proof fn lemma_div_ge(x: nat, d: nat, p: nat)
    requires
        p > 0,
    ensures
        (x >= d * p) == (x / p >= d),
{
    lemma_fundamental_div_mod(x as int, p as int);
    let q = x / p;
    let r = x % p;
    assert((x >= d * p) == (q >= d)) by (nonlinear_arith)
        requires
            x == p * q + r,
            0 <= r < p,
            q >= 0,
            d >= 0,
    ;
}

proof fn lemma_rne_le(x: nat, d: nat, b: nat)
    requires
        d > 0,
        x < d * b,
    ensures
        rne(x, d) <= b,
{
    lemma_div_ge(x, b, d);
    assert(d * b == b * d) by (nonlinear_arith);
}

/// The double nearest to `num / den`, as its significand and `e + 117`
/// (so that the exponent is carried as a natural number).
fn quotient_double(num: u128, den: u128) -> (r: (u128, u32))
    requires
        1 <= num < 0x20000000000000000,
        1 <= den < 0x20000000000000000,
    ensures
        r.0 == quotient_significand(num as nat, den as nat),
        r.1 as int == ratio_exponent(num as nat, den as nat) - 52 + 117,
        r.0 <= 0x20000000000000,
        r.1 <= 129,
{
    let n1 = bits_exec(num);
    let n2 = bits_exec(den);
    proof {
        lemma2_to64();
        lemma2_to64_rest();
        lemma_pow2_unfold(65);
        lemma_bits_bound(num as nat, 65);
        lemma_bits_bound(den as nat, 65);
        lemma_bits_lower(num as nat);
        lemma_bits_lower(den as nat);
        lemma_bits_upper(num as nat);
        lemma_ratio_exponent(num as nat, den as nat);
    }
    let t: i64 = n1 as i64 - n2 as i64;
    let reach = if t >= 0 {
        let p = pow2_big(t as u32);
        proof {
            lemma_div_ge(num as nat, den as nat, p as nat);
        }
        num / p >= den
    } else {
        let p = pow2_big((-t) as u32);
        proof {
            lemma_pow2_adds(n1 as nat, (-t) as nat);
            lemma_bits_bound(den as nat, 65);
            if n2 < 65 {
                lemma_pow2_strictly_increases(n2 as nat, 65);
            }
            assert(num * p < pow2(n1 as nat) * p) by (nonlinear_arith)
                requires
                    num < pow2(n1 as nat),
                    p > 0,
            ;
        }
        num * p >= den
    };
    let l: i64 = if reach {
        t
    } else {
        t - 1
    };
    assert(l == ratio_exponent(num as nat, den as nat));
    let e: i64 = l - 52;
    let m = if e <= 0 {
        let p = pow2_big((-e) as u32);
        proof {
            lemma_pow2_le_64(53);
            if l + 1 >= 0 {
                lemma_pow2_adds((l + 1) as nat, (52 - l) as nat);
                assert(num * p < den * pow2((l + 1) as nat) * p) by (nonlinear_arith)
                    requires
                        num < den * pow2((l + 1) as nat),
                        p > 0,
                ;
                assert(den * pow2((l + 1) as nat) * p == den * (pow2((l + 1) as nat) * p)) by (
                nonlinear_arith);
            } else {
                lemma_pow2_adds((-(l + 1)) as nat, 53);
                assert(num * pow2((-(l + 1)) as nat) * pow2(53) < den * pow2(53)) by (
                nonlinear_arith)
                    requires
                        num * pow2((-(l + 1)) as nat) < den,
                        pow2(53) > 0,
                ;
                assert(num * pow2((-(l + 1)) as nat) * pow2(53) == num * (pow2(
                    (-(l + 1)) as nat,
                ) * pow2(53))) by (nonlinear_arith);
            }
            assert(den * pow2(53) <= 0x20000000000000000 * 0x20000000000000) by (nonlinear_arith)
                requires
                    den < 0x20000000000000000,
                    pow2(53) == 0x20000000000000,
            ;
            lemma_rne_le((num * p) as nat, den as nat, pow2(53));
        }
        rne_exec(num * p, den)
    } else {
        let p = pow2_big(e as u32);
        proof {
            lemma_pow2_strictly_increases(e as nat, 13);
            lemma_pow2_le_64(13);
            lemma_pow2_adds(e as nat, 53);
            assert(den * p <= 0x20000000000000000 * 0x2000) by (nonlinear_arith)
                requires
                    den < 0x20000000000000000,
                    p <= 0x2000,
            ;
            assert(den * pow2((l + 1) as nat) == den * p * pow2(53)) by (nonlinear_arith)
                requires
                    pow2((l + 1) as nat) == p * pow2(53),
            ;
            lemma_rne_le(num as nat, (den * p) as nat, pow2(53));
        }
        rne_exec(num, den * p)
    };
    (m, (e + 117) as u32)
}

/// The RAM usage sample, in whole percent, of `used` out of `total` kilobytes.
pub fn usage_percent(used: u64, total: u64) -> (r: u64)
    ensures
        r == usage_percent_of(used, total),
{
    if total == 0 {
        return 0;
    }
    let u = f64_value(used);
    let t = f64_value(total);
    if u == 0 {
        return 0;
    }
    if u >= t {
        return 100;
    }
    proof {
        lemma_bits_u128(t);
    }
    let (m, ep) = quotient_double(u, t);
    proof {
        lemma_ratio_exponent(u as nat, t as nat);
        let l = ratio_exponent(u as nat, t as nat);
        if l >= 0 {
            lemma_pow2_pos(l as nat);
            assert(t * pow2(l as nat) >= t) by (nonlinear_arith)
                requires
                    pow2(l as nat) >= 1,
            ;
        }
        lemma2_to64();
    }
    let prod = f64_value((m * 100) as u64);
    let s: u32 = 117 - ep;
    let half = pow2_big(s - 1);
    let p = pow2_big(s);
    proof {
        lemma_pow2_unfold(s as nat);
        lemma2_to64_rest();
        lemma_pow2_le_64(53);
        if s > 53 {
            lemma_pow2_strictly_increases(53, s as nat);
        }
        assert(((prod + half) as int) / (p as int) <= ((prod + half) as int) / (pow2(53) as int)) by {
            vstd::arithmetic::div_mod::lemma_div_is_ordered_by_denominator(
                (prod + half) as int,
                pow2(53) as int,
                p as int,
            );
        }
        lemma_pow2_adds(64, 52);
        assert(pow2(64) * pow2(52) == 0x100000000000000000000000000000);
        assert(s <= 117);
        if s - 1 < 116 {
            lemma_pow2_strictly_increases((s - 1) as nat, 116);
        }
        assert(half <= 0x100000000000000000000000000000);
        assert(prod + half < 0x10000000000000000 * 0x20000000000000);
        lemma_div_ge((prod + half) as nat, 0x10000000000000000, pow2(53));
    }
    ((prod + half) / p) as u64
}

/// The temperature sample, in whole degrees, of a reading of `milli`
/// thousandths of a degree.
pub fn temp_sample(milli: i64) -> (r: u64)
    ensures
        r == temp_sample_of(milli),
{
    if milli <= 0 {
        return 0;
    }
    let a = f64_value(milli as u64);
    proof {
        lemma_bits_lower(milli as nat);
        lemma2_to64();
    }
    let (m, ep) = quotient_double(a, 1000);
    proof {
        lemma_thousandths_exponent_small(a as nat);
        lemma2_to64();
    }
    if ep >= 117 {
        let p = pow2_big(ep - 117);
        proof {
            lemma_pow2_le_64(3);
            if ep - 117 < 3 {
                lemma_pow2_strictly_increases((ep - 117) as nat, 3);
            }
            assert(m * p <= 0x20000000000000 * 8) by (nonlinear_arith)
                requires
                    m <= 0x20000000000000,
                    p <= 8,
            ;
        }
        (m * p) as u64
    } else {
        let s: u32 = 117 - ep;
        let half = pow2_big(s - 1);
        let p = pow2_big(s);
        proof {
            lemma_pow2_unfold(s as nat);
            assert(m + half < 0x20000000000000 * p) by (nonlinear_arith)
                requires
                    m <= 0x20000000000000,
                    p == 2 * half,
                    half >= 1,
            ;
            lemma_div_ge((m + half) as nat, 0x20000000000000, p as nat);
        }
        ((m + half) / p) as u64
    }
}

proof fn lemma_rne_at_most(x: nat, d: nat, b: nat)
    requires
        d > 0,
        x <= d * b,
    ensures
        rne(x, d) <= b,
{
    lemma_fundamental_div_mod(x as int, d as int);
    let q = x / d;
    let r = x % d;
    assert(q <= b) by (nonlinear_arith)
        requires
            x == d * q + r,
            0 <= r < d,
            x <= d * b,
            q >= 0,
    ;
    if q == b {
        assert(r == 0) by (nonlinear_arith)
            requires
                x == d * q + r,
                0 <= r,
                x <= d * b,
                q == b,
        ;
    }
}

/// A RAM usage sample is a percentage: never above 100.
pub proof fn lemma_usage_percent_at_most_100(used: u64, total: u64)
    ensures
        usage_percent_of(used, total) <= 100,
{
    let u = f64_of(used as nat);
    let t = f64_of(total as nat);
    if total != 0 && u != 0 && u < t {
        lemma_ratio_exponent(u, t);
        let l = ratio_exponent(u, t);
        if l >= 0 {
            lemma_pow2_pos(l as nat);
            assert(t * pow2(l as nat) >= t) by (nonlinear_arith)
                requires
                    pow2(l as nat) >= 1,
            ;
        }
        assert(l <= -1);
        let e = l - 52;
        let s = (-e) as nat;
        // the quotient's significand is at most 2^53
        lemma2_to64();
        lemma2_to64_rest();
        let a = (-(l + 1)) as nat;
        if l + 1 == 0 {
            assert(pow2(a) == 1);
            assert(u * pow2(a) == u) by (nonlinear_arith)
                requires
                    pow2(a) == 1,
            ;
            assert(t * pow2(0) == t) by (nonlinear_arith)
                requires
                    pow2(0) == 1,
            ;
        }
        lemma_pow2_adds(a, 53);
        assert(u * pow2(a) * pow2(53) < t * pow2(53)) by (nonlinear_arith)
            requires
                u * pow2(a) < t,
                pow2(53) > 0,
        ;
        assert(u * pow2(a) * pow2(53) == u * pow2(s)) by (nonlinear_arith)
            requires
                pow2(a) * pow2(53) == pow2(s),
        ;
        lemma_rne_le(u * pow2(s), t, pow2(53));
        let m = quotient_significand(u, t);
        assert(m <= 0x20000000000000);
        // the product with 100 stays at most 25 * 2^55 after rounding
        let x = m * 100;
        let bound: nat = 25 * 0x80000000000000;
        assert(x <= bound);
        if bits(x) > 53 {
            lemma_bits_bound(x, 60);
            let k = (bits(x) - 53) as nat;
            lemma_pow2_adds(k, (55 - k) as nat);
            lemma_pow2_pos(k);
            assert(pow2(k) * (25 * pow2((55 - k) as nat)) == bound) by (nonlinear_arith)
                requires
                    pow2(k) * pow2((55 - k) as nat) == pow2(55),
                    pow2(55) == 0x80000000000000,
                    bound == 25 * 0x80000000000000,
            ;
            lemma_rne_at_most(x, pow2(k), 25 * pow2((55 - k) as nat));
            assert(rne(x, pow2(k)) * pow2(k) <= bound) by (nonlinear_arith)
                requires
                    rne(x, pow2(k)) <= 25 * pow2((55 - k) as nat),
                    pow2(k) * (25 * pow2((55 - k) as nat)) == bound,
                    pow2(k) > 0,
            ;
        }
        let pp = f64_of(x);
        assert(pp <= bound);
        // rounding pp / 2^s with s >= 53 gives at most 100
        lemma_pow2_unfold(s);
        if s > 53 {
            lemma_pow2_strictly_increases(53, s);
        }
        assert(pp + pow2(s) / 2 < 101 * pow2(s)) by (nonlinear_arith)
            requires
                pp <= 25 * 0x80000000000000,
                pow2(s) >= 0x20000000000000,
                pow2(s) == 2 * (pow2(s) / 2),
        ;
        lemma_div_ge(pp + pow2(s) / 2, 101, pow2(s));
    }
}

/// Ten times the double nearest to `a / 1000`, rounded half to even: the
/// digits that `format!("{:.1}", x / 1000.0)` prints for a double `x` of
/// integer value `a`.
pub open spec fn tenths_of_thousandths(a: nat) -> nat {
    if a == 0 {
        0
    } else {
        let e = ratio_exponent(a, 1000) - 52;
        let m = quotient_significand(a, 1000);
        if e >= 0 {
            10 * m * pow2(e as nat)
        } else {
            rne(10 * m, pow2((-e) as nat))
        }
    }
}

/// A quotient by 1000 of a value below `2^65` stays below `2^56`.
proof fn lemma_thousandths_exponent_small(a: nat)
    requires
        1 <= a < 0x20000000000000000,
    ensures
        ratio_exponent(a, 1000) <= 55,
{
    lemma_ratio_exponent(a, 1000);
    let l = ratio_exponent(a, 1000);
    if l >= 56 {
        lemma_pow2_le_64(56);
        lemma2_to64_rest();
        lemma_pow2_strictly_increases(56, l as nat);
        assert(false) by (nonlinear_arith)
            requires
                a >= 1000 * pow2(l as nat),
                pow2(l as nat) > 0x100000000000000,
                a < 0x20000000000000000,
        ;
    }
}

/// Ten times the double nearest to `a / 1000`, rounded half to even.
pub fn thousandths_to_tenths(a: u128) -> (r: u128)
    requires
        a < 0x20000000000000000,
    ensures
        r == tenths_of_thousandths(a as nat),
{
    if a == 0 {
        return 0;
    }
    let (m, ep) = quotient_double(a, 1000);
    proof {
        lemma_thousandths_exponent_small(a as nat);
        lemma2_to64();
    }
    if ep >= 117 {
        let p = pow2_big(ep - 117);
        proof {
            lemma_pow2_le_64(3);
            if ep - 117 < 3 {
                lemma_pow2_strictly_increases((ep - 117) as nat, 3);
            }
            assert(10 * m * p <= 10 * 0x20000000000000 * 8) by (nonlinear_arith)
                requires
                    m <= 0x20000000000000,
                    p <= 8,
            ;
        }
        10 * m * p
    } else {
        let p = pow2_big(117 - ep);
        rne_exec(10 * m, p)
    }
}

// ─── Sizes and voltages ───────────────────────────────────────────────────────

/// `mb` megabytes as whole gigabytes (`"16 GB"`) from 1024 MB on, else as
/// megabytes (`"512 MB"`).
pub open spec fn size_text(mb: u64) -> Seq<char> {
    if mb >= 1024 {
        dec(rne(f64_of(mb as nat), 1024)) + " GB"@
    } else {
        dec(mb as nat) + " MB"@
    }
}

/// `kb` kilobytes as gigabytes with one decimal (`"1.5 GB"`) from 1 GB on,
/// else as whole megabytes (`"512 MB"`).
pub open spec fn kb_text(kb: u64) -> Seq<char> {
    let mb = kb / 1024;
    if f64_of(mb as nat) >= 1024 {
        tenths(rne(10 * f64_of(mb as nat), 1024)) + " GB"@
    } else {
        dec(mb as nat) + " MB"@
    }
}

/// A voltage of `mv` millivolts in volts with one decimal, e.g. `1.2 V`.
pub open spec fn millivolts_text(mv: u64) -> Seq<char> {
    tenths(tenths_of_thousandths(f64_of(mv as nat))) + " V"@
}

/// Format a size in megabytes as `"N GB"` (>= 1024 MB) or `"N MB"`.
pub fn fmt_size(mb: u64) -> (s: String)
    ensures
        s@ == size_text(mb),
{
    let mut out = String::new();
    if mb >= 1024 {
        let v = f64_value(mb);
        push_dec(&mut out, rne_exec(v, 1024));
        push_lit(&mut out, " GB");
    } else {
        push_dec(&mut out, mb as u128);
        push_lit(&mut out, " MB");
    }
    out
}

/// Format a size in kilobytes as `"N.N GB"` (>= 1 GB) or `"N MB"`.
pub fn fmt_kb(kb: u64) -> (s: String)
    ensures
        s@ == kb_text(kb),
{
    let mb = kb / 1024;
    let v = f64_value(mb);
    let mut out = String::new();
    if v >= 1024 {
        push_tenths(&mut out, rne_exec(10 * v, 1024));
        push_lit(&mut out, " GB");
    } else {
        push_dec(&mut out, mb as u128);
        push_lit(&mut out, " MB");
    }
    out
}

/// Format a voltage given in millivolts as volts with one decimal, e.g. `1.2 V`.
pub fn fmt_millivolts(mv: u64) -> (s: String)
    ensures
        s@ == millivolts_text(mv),
{
    let mut out = String::new();
    push_tenths(&mut out, thousandths_to_tenths(f64_value(mv)));
    push_lit(&mut out, " V");
    out
}

} // verus!
