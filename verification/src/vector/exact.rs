//! How near binary64 arithmetic comes to exact arithmetic.

use vstd::arithmetic::div_mod::*;
use vstd::arithmetic::mul::*;
use vstd::arithmetic::power2::*;
use vstd::prelude::*;

use crate::vector::binary64;
use crate::vector::binary64::BINADE;
use crate::vector::binary64::INFINITE;
use crate::vector::binary64::ONE;

verus! {

/// Twice the weight of the lowest exponent bit, 2^53.
pub const TWO_BINADES: u64 = 0x20_0000_0000_0000;

/// The number 1 in units of 2^-1074.
pub open spec fn one() -> nat {
    pow2(1074)
}

/// A finite magnitude taken apart.
pub proof fn lemma_units(k: nat, s: nat)
    requires
        s <= TWO_BINADES,
        k == 0 || BINADE <= s,
    ensures
        binary64::units((k * BINADE as nat + s) as nat) == s * pow2(k),
{
    let b = BINADE as nat;
    let mag = (k * b + s) as nat;
    lemma_pow2_pos(k);
    lemma_pow2_unfold(k + 1);
    if s < b {
        assert(mag == s);
        lemma2_to64();
    } else if s < 2 * b {
        lemma_fundamental_div_mod_converse(mag as int, b as int, (k + 1) as int, s - b);
        assert(binary64::exponent_of(mag) == k);
    } else {
        lemma_fundamental_div_mod_converse(mag as int, b as int, (k + 2) as int, 0);
        assert(binary64::exponent_of(mag) == k + 1);
        assert(binary64::significand_of(mag) == b);
        assert(b * pow2(k + 1) == s * pow2(k)) by (nonlinear_arith)
            requires
                pow2(k + 1) == 2 * pow2(k),
                s == 2 * b,
        ;
    }
}

/// The binade of a fraction, and the bounds of what is rounded in it.
proof fn lemma_binade(num: nat, den: nat) -> (r: (nat, nat))
    requires
        den > 0,
    ensures
        r.0 == binary64::binade(num, den),
        r.1 == binary64::nearest_even(num, den * pow2(r.0)),
        r.1 <= TWO_BINADES,
        r.0 == 0 || BINADE <= r.1,
        r.0 > 0 ==> num >= den * pow2(r.0) * BINADE,
        den * pow2(r.0) > 0,
{
    let k = binary64::binade(num, den);
    let q = num / den;
    let d = den * pow2(k);
    lemma_pow2_pos(k);
    assert(d > 0) by (nonlinear_arith)
        requires
            den > 0,
            pow2(k) > 0,
            d == den * pow2(k),
    ;
    lemma_div_denominator(num as int, den as int, pow2(k) as int);
    assert(num / d == q / pow2(k));
    let m = num / d;
    binary64::lemma_bit_length_of_quotient(q, k);
    binary64::lemma_bit_length_bounds(m);
    lemma2_to64();
    lemma2_to64_rest();
    let bits = binary64::bit_length(m);
    assert(bits <= 53);
    binary64::lemma_pow2_below(bits, 53);
    assert(m < TWO_BINADES);
    if k > 0 {
        assert(bits == 53);
        assert(m >= BINADE);
        lemma_fundamental_div_mod(num as int, d as int);
        assert(num >= d * BINADE) by (nonlinear_arith)
            requires
                num == d * m + num % d,
                num % d >= 0,
                m >= BINADE,
                d > 0,
        ;
    }
    (k, binary64::nearest_even(num, d))
}

/// Rounding to an integer is off by no more than a half.
proof fn lemma_nearest_even_error(n: nat, d: nat)
    requires
        d > 0,
    ensures
        2 * (binary64::nearest_even(n, d) * d - n) <= d,
        2 * (n - binary64::nearest_even(n, d) * d) <= d,
{
    let q = n / d;
    let r = n % d;
    lemma_fundamental_div_mod(n as int, d as int);
    assert(q * d == d * q) by (nonlinear_arith);
    assert((q + 1) * d == d * q + d) by (nonlinear_arith);
}

/// Rounding is off by no more than one part in 2^53, or a half of the lowest unit.
pub proof fn lemma_rounding_error(num: nat, den: nat)
    requires
        den > 0,
        binary64::rounded(num, den) < INFINITE,
    ensures
        ({
            let u = binary64::units(binary64::rounded(num, den));
            &&& TWO_BINADES * (u * den - num) <= num + BINADE * den
            &&& TWO_BINADES * (num - u * den) <= num + BINADE * den
        }),
{
    let (k, s) = lemma_binade(num, den);
    lemma_units(k, s);
    let u = binary64::units(binary64::rounded(num, den));
    let d = den * pow2(k);
    lemma_nearest_even_error(num, d);
    assert(u * den == s * d) by (nonlinear_arith)
        requires
            u == s * pow2(k),
            d == den * pow2(k),
    ;
    if k == 0 {
        lemma2_to64();
        assert(d == den) by (nonlinear_arith)
            requires
                d == den * pow2(k),
                pow2(k) == 1,
        ;
    }
}

/// `n / d` rounded to an integer grows with the fraction.
proof fn lemma_nearest_even_grows(n: nat, d: nat, m: nat, e: nat)
    requires
        d > 0,
        e > 0,
        n * e <= m * d,
    ensures
        binary64::nearest_even(n, d) <= binary64::nearest_even(m, e),
{
    let a = binary64::nearest_even(n, d) as int;
    let b = binary64::nearest_even(m, e) as int;
    lemma_nearest_even_error(n, d);
    lemma_nearest_even_error(m, e);
    if a > b {
        // a - 1/2 <= n/d <= m/e <= b + 1/2, so both are halfway between b and a.
        assert(2 * (a * d - n) <= d && 2 * (m - b * e) <= e);
        assert((2 * a - 1) * d <= 2 * n) by (nonlinear_arith)
            requires
                2 * (a * d - n) <= d,
        ;
        assert(2 * m <= (2 * b + 1) * e) by (nonlinear_arith)
            requires
                2 * (m - b * e) <= e,
        ;
        assert((2 * a - 1) * d * e <= 2 * n * e) by (nonlinear_arith)
            requires
                (2 * a - 1) * d <= 2 * n,
                e > 0,
        ;
        assert(2 * m * d <= (2 * b + 1) * e * d) by (nonlinear_arith)
            requires
                2 * m <= (2 * b + 1) * e,
                d > 0,
        ;
        assert((2 * a - 1) * (d * e) <= (2 * b + 1) * (d * e)) by (nonlinear_arith)
            requires
                (2 * a - 1) * d * e <= 2 * n * e,
                2 * m * d <= (2 * b + 1) * e * d,
                n * e <= m * d,
        ;
        assert(d * e > 0) by (nonlinear_arith)
            requires
                d > 0,
                e > 0,
        ;
        assert(2 * a - 1 <= 2 * b + 1) by (nonlinear_arith)
            requires
                (2 * a - 1) * (d * e) <= (2 * b + 1) * (d * e),
                d * e > 0,
        ;
        assert(a == b + 1);
        assert((2 * a - 1) * d == 2 * n) by (nonlinear_arith)
            requires
                (2 * a - 1) * d <= 2 * n,
                2 * m <= (2 * b + 1) * e,
                a == b + 1,
                n * e <= m * d,
                d > 0,
                e > 0,
        ;
        assert(2 * m == (2 * b + 1) * e) by (nonlinear_arith)
            requires
                (2 * a - 1) * d <= 2 * n,
                2 * m <= (2 * b + 1) * e,
                a == b + 1,
                n * e <= m * d,
                d > 0,
                e > 0,
        ;
        lemma_halfway(n, d, b as nat);
        lemma_halfway(m, e, b as nat);
    }
}

/// Halfway between two integers the even one is taken.
proof fn lemma_halfway(n: nat, d: nat, b: nat)
    requires
        d > 0,
        2 * n == (2 * b + 1) * d,
    ensures
        binary64::nearest_even(n, d) == if b % 2 == 0 {
            b
        } else {
            b + 1
        },
{
    let r = n - b * d;
    assert(2 * r == d) by (nonlinear_arith)
        requires
            2 * n == (2 * b + 1) * d,
            r == n - b * d,
    ;
    assert(n == b * d + r);
    lemma_fundamental_div_mod_converse(n as int, d as int, b as int, r);
}

/// The larger a fraction, the larger the number nearest to it.
pub proof fn lemma_rounding_grows(n: nat, d: nat, m: nat, e: nat)
    requires
        d > 0,
        e > 0,
        n * e <= m * d,
    ensures
        binary64::rounded(n, d) <= binary64::rounded(m, e),
{
    let (k, s) = lemma_binade(n, d);
    let (l, t) = lemma_binade(m, e);
    let x = n / d;
    let y = m / e;
    assert(x <= y) by {
        lemma_fundamental_div_mod(n as int, d as int);
        lemma_fundamental_div_mod(m as int, e as int);
        if x > y {
            assert(false) by (nonlinear_arith)
                requires
                    n >= d * x,
                    m < e * y + e,
                    x >= y + 1,
                    n * e <= m * d,
                    d > 0,
                    e > 0,
            ;
        }
    }
    lemma_bit_length_grows(x, y);
    assert(k <= l);
    if k == l {
        let c = pow2(k);
        lemma_pow2_pos(k);
        assert(n * (e * c) <= m * (d * c)) by (nonlinear_arith)
            requires
                n * e <= m * d,
                c > 0,
        ;
        lemma_nearest_even_grows(n, d * c, m, e * c);
    } else {
        assert(k * BINADE + s <= l * BINADE + t);
    }
}

proof fn lemma_bit_length_grows(x: nat, y: nat)
    requires
        x <= y,
    ensures
        binary64::bit_length(x) <= binary64::bit_length(y),
    decreases y,
{
    if x > 0 {
        lemma_bit_length_grows(x / 2, y / 2);
    }
}

/// A number that there is rounds to itself.
pub proof fn lemma_rounding_keeps(mag: nat, den: nat)
    requires
        mag < INFINITE,
        den > 0,
    ensures
        binary64::rounded(binary64::units(mag) * den, den) == mag,
{
    let b = BINADE as nat;
    let u = binary64::units(mag);
    lemma_div_multiples_vanish(u as int, den as int);
    assert((u * den) / den == u) by {
        assert(u * den == den * u) by (nonlinear_arith);
    }
    let k = binary64::exponent_of(mag);
    let s = binary64::significand_of(mag);
    lemma_fundamental_div_mod(mag as int, b as int);
    if mag < b {
        lemma2_to64();
        assert(k == 0 && s == mag);
    } else {
        assert(mag % b < b);
        assert(s == b + mag % b);
    }
    assert(s < 2 * b);
    lemma_pow2_pos(k);
    // The binade is the exponent.
    lemma_div_multiples_vanish(s as int, pow2(k) as int);
    assert(u / pow2(k) == s) by {
        assert(u == pow2(k) * s) by (nonlinear_arith)
            requires
                u == s * pow2(k),
        ;
    }
    binary64::lemma_bit_length_of_quotient(u, k);
    binary64::lemma_bit_length_bounds(s);
    lemma2_to64();
    lemma2_to64_rest();
    let bits = binary64::bit_length(s);
    if bits > 53 {
        binary64::lemma_pow2_below(53, (bits - 1) as nat);
    }
    if s >= b && bits < 53 {
        binary64::lemma_pow2_below(bits, 52);
    }
    assert(binary64::binade(u * den, den) == k) by {
        if k == 0 {
            assert(pow2(0) == 1);
            assert(u == s) by (nonlinear_arith)
                requires
                    u == s * pow2(k),
                    pow2(k) == 1,
            ;
        } else {
            assert(bits == 53);
        }
    }
    let d = den * pow2(k);
    assert(d > 0) by (nonlinear_arith)
        requires
            d == den * pow2(k),
            den > 0,
            pow2(k) > 0,
    ;
    assert(u * den == s * d + 0) by (nonlinear_arith)
        requires
            u == s * pow2(k),
            d == den * pow2(k),
    ;
    lemma_fundamental_div_mod_converse((u * den) as int, d as int, s as int, 0);
    assert(binary64::nearest_even(u * den, d) == s);
}

/// The larger the magnitude bits, the larger the number.
pub proof fn law_magnitudes_grow(a: nat, b: nat)
    requires
        a < b < INFINITE,
    ensures
        binary64::units(a) < binary64::units(b),
        binary64::units(0) == 0,
        binary64::units(ONE as nat) == one(),
{
    let (u, v) = (binary64::units(a), binary64::units(b));
    lemma_rounding_keeps(a, 1);
    lemma_rounding_keeps(b, 1);
    if v <= u {
        lemma_rounding_grows(v * 1, 1, u * 1, 1);
    }
    lemma_one();
    assert(binary64::significand_of(0) == 0);
    assert(0 * pow2(binary64::exponent_of(0)) == 0);
}

pub proof fn lemma_one()
    ensures
        binary64::units(ONE as nat) == one(),
        one() > 0x1_0000_0000_0000_0000,
{
    let b = BINADE as nat;
    lemma_fundamental_div_mod_converse(ONE as int, b as int, 1023, 0);
    assert(binary64::exponent_of(ONE as nat) == 1022);
    assert(binary64::significand_of(ONE as nat) == b);
    lemma2_to64();
    lemma2_to64_rest();
    lemma_pow2_adds(52, 1022);
    binary64::lemma_pow2_below(65, 1074);
    lemma_pow2_unfold(65);
    lemma_pow2_pos(64);
}

} // verus!
