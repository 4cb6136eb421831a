//! What numbers are on the fixed-point scale.

use vstd::arithmetic::div_mod::*;
use vstd::arithmetic::mul::*;
use vstd::arithmetic::power2::*;
use vstd::prelude::*;

use crate::vector::binary64;
use crate::vector::binary64::Binary64;
use crate::vector::binary64::BINADE;
use crate::vector::binary64::INFINITE;
use crate::vector::binary64::ONE;
use crate::vector::exact;
use crate::vector::exact::one;
use crate::vector::exact::TWO_BINADES;
use crate::vector::helpers;
use crate::PACKED_DIMS;
use crate::SCALE;

verus! {

/// The smaller of two numbers.
pub open spec fn smaller(a: int, b: int) -> int {
    if a <= b {
        a
    } else {
        b
    }
}

/// `r` is the fraction `n / d`, which is not negative, on the scale: `SCALE` times the fraction, cut
/// at `SCALE`, to the nearest integer but for an error in the sixth place behind the point.
pub open spec fn on_scale(r: int, n: int, d: int) -> bool {
    let off = r * d - SCALE * smaller(n, d);
    &&& 0 <= r <= SCALE
    &&& -500_001 * d <= 1_000_000 * off <= 500_001 * d
}

/// `r` is the fraction `-n / d` on the scale: `-SCALE` for -1 and less, 0 for more, but for fractions
/// within a thousandth of -1.
pub open spec fn under_scale(r: int, n: int, d: int) -> bool {
    &&& r == 0 || r == -SCALE
    &&& 1000 * n >= 1001 * d ==> r == -SCALE
    &&& 1000 * n <= 999 * d ==> r == 0
}

/// `r` is the fraction `n / d` on the scale, with the sign taken apart.
pub open spec fn measured(r: int, negative: bool, n: int, d: int) -> bool {
    if negative {
        under_scale(r, n, d)
    } else {
        on_scale(r, n, d)
    }
}

/// A finite number in units of 2^-1074, without its sign.
pub open spec fn size(value: Binary64) -> nat {
    binary64::units(value.magnitude as nat)
}

/// The number is neither infinite nor none.
pub open spec fn is_finite(value: Binary64) -> bool {
    value.magnitude < INFINITE
}

/// What is tiny against 1.
pub proof fn lemma_one_is_large()
    ensures
        one() >= 0x1_0000_0000_0000_0000_0000_0000_0000_0000,
        pow2(1075) == 2 * one(),
        binary64::units(ONE as nat) == one(),
{
    exact::lemma_one();
    lemma2_to64();
    lemma_pow2_adds(64, 64);
    binary64::lemma_pow2_below(128, 1074);
    lemma_pow2_unfold(1075);
}

/// Integers of at most 53 bits are there.
pub proof fn lemma_integer_is_there(n: nat)
    requires
        0 < n < TWO_BINADES,
    ensures
        binary64::rounded(n * one(), 1) < INFINITE,
        binary64::units(binary64::rounded(n * one(), 1)) == n * one(),
{
    let v = n * one();
    lemma_one_is_large();
    lemma2_to64();
    lemma2_to64_rest();
    lemma_pow2_adds(53, 1074);
    let b = binary64::bit_length(v);
    binary64::lemma_bit_length_bounds(v);
    assert(0 < v < pow2(1127)) by (nonlinear_arith)
        requires
            v == n * one(),
            0 < n < 0x20_0000_0000_0000,
            pow2(1127) == 0x20_0000_0000_0000 * one(),
            one() > 0,
    ;
    if b > 1127 {
        binary64::lemma_pow2_below(1127, (b - 1) as nat);
    }
    assert(v / 1 == v);
    let k = binary64::binade(v, 1);
    assert(k <= 1074);
    let c = pow2((1074 - k) as nat);
    lemma_pow2_adds(k, (1074 - k) as nat);
    lemma_pow2_pos(k);
    let q = n * c;
    assert(v == q * pow2(k) + 0) by (nonlinear_arith)
        requires
            v == n * one(),
            one() == pow2(k) * c,
            q == n * c,
    ;
    assert(1 * pow2(k) == pow2(k));
    lemma_fundamental_div_mod_converse(v as int, pow2(k) as int, q as int, 0);
    assert(binary64::nearest_even(v, 1 * pow2(k)) == q);
    binary64::lemma_bit_length_of_quotient(v, k);
    binary64::lemma_bit_length_bounds(q);
    assert(q == v / pow2(k));
    let bits = binary64::bit_length(q);
    assert(bits <= 53);
    binary64::lemma_pow2_below(bits, 53);
    if k > 0 {
        assert(bits == 53);
    }
    assert(k * BINADE + q < INFINITE);
    exact::lemma_units(k, q);
}

/// What rounds to infinity is large.
pub proof fn lemma_infinite_is_large(num: nat, den: nat)
    requires
        den > 0,
        binary64::rounded(num, den) >= INFINITE,
    ensures
        num >= 20 * one() * den,
{
    if num < 20 * one() * den {
        lemma_integer_is_there(20);
        assert(num * 1 <= (20 * one()) * den);
        exact::lemma_rounding_grows(num, den, 20 * one(), 1);
    }
}

/// Of two numbers the one with the larger magnitude bits is the larger one.
proof fn lemma_sizes(a: nat, b: nat)
    requires
        a < INFINITE,
        b < INFINITE,
    ensures
        a <= b <==> binary64::units(a) <= binary64::units(b),
{
    if a < b {
        exact::law_magnitudes_grow(a, b);
    } else if b < a {
        exact::law_magnitudes_grow(b, a);
    }
}

/// A positive number on the scale, to the ninth place.
proof fn lemma_quantized(value: Binary64)
    requires
        is_finite(value),
        !value.negative,
    ensures
        ({
            let r = helpers::quantized(value);
            let m = smaller(size(value) as int, one() as int);
            &&& 0 <= r <= SCALE
            &&& 1_000_000_000 * (r * one() - SCALE * m) <= 500_000_001 * one()
            &&& 1_000_000_000 * (SCALE * m - r * one()) <= 500_000_001 * one()
        }),
{
    let o = one();
    let u = size(value);
    let r = helpers::quantized(value);
    lemma_one_is_large();
    lemma_sizes(value.magnitude as nat, ONE as nat);
    lemma_sizes(ONE as nat, value.magnitude as nat);
    exact::law_magnitudes_grow(0, 1);
    lemma_sizes(value.magnitude as nat, 0);
    if value.magnitude == 0 {
        assert(u == 0);
        assert(r == 0);
        assert(r * o == 0);
    } else if value.magnitude >= ONE {
        assert(r == SCALE);
    } else {
        let t = 10_000 * o;
        lemma_integer_is_there(10_000);
        let ten = binary64::of_integer(SCALE as int);
        assert(ten.magnitude == binary64::rounded(t, 1));
        assert(size(ten) == t);
        let p = binary64::rounded(u * t, o);
        assert(u * t * 1 <= t * o) by (nonlinear_arith)
            requires
                u <= o,
        ;
        exact::lemma_rounding_grows(u * t, o, t, 1);
        let product = binary64::product(value, ten);
        assert(product == (Binary64 { negative: false, magnitude: p as u64 }));
        let big = binary64::units(p);
        exact::lemma_rounding_error(u * t, o);
        lemma_sizes(p, binary64::rounded(t, 1));
        assert(big <= t);
        let e = 10_000 * u;
        assert(TWO_BINADES * (big - e) <= e + BINADE && TWO_BINADES * (e - big) <= e + BINADE)
            by (nonlinear_arith)
            requires
                TWO_BINADES * (big * o - u * t) <= u * t + BINADE * o,
                TWO_BINADES * (u * t - big * o) <= u * t + BINADE * o,
                t == 10_000 * o,
                e == 10_000 * u,
                o > 0,
        ;
        let whole = (2 * big + o) as nat / pow2(1075);
        lemma_fundamental_div_mod((2 * big + o) as int, pow2(1075) as int);
        assert(2 * o * whole == whole * (2 * o)) by (nonlinear_arith);
        assert(whole <= 10_000) by (nonlinear_arith)
            requires
                2 * big + o >= 2 * o * whole,
                big <= 10_000 * o,
                o > 0,
        ;
        assert(r == whole);
        assert(2 * (whole * o) == 2 * o * whole) by (nonlinear_arith);
        assert(SCALE * u == e);
    }
}

/// A number that is near to a fraction, put on the scale, is the fraction on the scale.
proof fn lemma_near_is_measured(value: Binary64, n: nat, d: nat)
    requires
        is_finite(value),
        d > 0,
        1_000_000_000_000 * (size(value) * d - n * one()) <= n * one() + d * one(),
        1_000_000_000_000 * (n * one() - size(value) * d) <= n * one() + d * one(),
    ensures
        measured(helpers::quantized(value), value.negative, n as int, d as int),
{
    let o = one() as int;
    let p = size(value) as int;
    let r = helpers::quantized(value);
    let (x, y, z) = (p * d, n * o, d * o);
    lemma_one_is_large();
    if value.negative {
        lemma_sizes(value.magnitude as nat, ONE as nat);
        lemma_sizes(ONE as nat, value.magnitude as nat);
        exact::law_magnitudes_grow(0, 1);
        assert(r == if p >= o {
            -SCALE as int
        } else {
            0
        });
        if p >= o {
            assert(x >= z) by (nonlinear_arith)
                requires
                    p >= o,
                    x == p * d,
                    z == d * o,
                    d > 0,
            ;
            if 1000 * n <= 999 * d {
                assert(1000 * y <= 999 * z) by (nonlinear_arith)
                    requires
                        1000 * n <= 999 * d,
                        y == n * o,
                        z == d * o,
                        o > 0,
                ;
                assert(z > 0) by (nonlinear_arith)
                    requires
                        z == d * o,
                        d > 0,
                        o > 0,
                ;
            }
        } else {
            assert(x <= z) by (nonlinear_arith)
                requires
                    p <= o,
                    x == p * d,
                    z == d * o,
                    d > 0,
            ;
            if 1000 * n >= 1001 * d {
                assert(1000 * y >= 1001 * z) by (nonlinear_arith)
                    requires
                        1000 * n >= 1001 * d,
                        y == n * o,
                        z == d * o,
                        o > 0,
                ;
                assert(z > 0) by (nonlinear_arith)
                    requires
                        z == d * o,
                        d > 0,
                        o > 0,
                ;
            }
        }
    } else {
        lemma_quantized(value);
        let m = smaller(p, o);
        let c = smaller(n as int, d as int);
        let (w, md, co) = (r * z, m * d, c * o);
        assert(z > 0) by (nonlinear_arith)
            requires
                z == d * o,
                d > 0,
                o > 0,
        ;
        assert(md == smaller(x, z)) by (nonlinear_arith)
            requires
                m == (if p <= o { p } else { o }),
                md == m * d,
                x == p * d,
                z == d * o,
                d > 0,
        ;
        assert(co == smaller(y, z)) by (nonlinear_arith)
            requires
                c == (if n <= d { n as int } else { d as int }),
                co == c * o,
                y == n * o,
                z == d * o,
                o > 0,
        ;
        assert(1_000_000_000 * (w - 10_000 * md) <= 500_000_001 * z && 1_000_000_000 * (10_000 * md
            - w) <= 500_000_001 * z) by (nonlinear_arith)
            requires
                1_000_000_000 * (r * o - 10_000 * m) <= 500_000_001 * o,
                1_000_000_000 * (10_000 * m - r * o) <= 500_000_001 * o,
                w == r * z,
                md == m * d,
                z == d * o,
                d > 0,
        ;
        assert(1_000_000 * (w - 10_000 * co) <= 500_001 * z && 1_000_000 * (10_000 * co - w)
            <= 500_001 * z);
        let off = r * d - 10_000 * c;
        assert(1_000_000 * off <= 500_001 * d && 1_000_000 * (-off) <= 500_001 * d)
            by (nonlinear_arith)
            requires
                1_000_000 * (w - 10_000 * co) <= 500_001 * z,
                1_000_000 * (10_000 * co - w) <= 500_001 * z,
                w == r * z,
                z == d * o,
                co == c * o,
                off == r * d - 10_000 * c,
                o > 0,
        ;
    }
}

/// A number is put on the scale as what it is.
pub proof fn law_quantized_is_the_number(value: Binary64)
    requires
        is_finite(value),
    ensures
        measured(
            helpers::quantized(value),
            value.negative,
            size(value) as int,
            one() as int,
        ),
        value.negative && size(value) >= one() ==> helpers::quantized(value) == -SCALE,
        value.negative && size(value) < one() ==> helpers::quantized(value) == 0,
{
    lemma_one_is_large();
    lemma_sizes(value.magnitude as nat, ONE as nat);
    lemma_sizes(ONE as nat, value.magnitude as nat);
    exact::law_magnitudes_grow(0, 1);
    lemma_near_is_measured(value, size(value), one());
}

/// Infinite numbers are cut like large ones, and what is no number is 0.
pub proof fn law_quantized_of_the_infinite(value: Binary64)
    requires
        value.magnitude >= INFINITE,
    ensures
        helpers::quantized(value) == (if value.magnitude > INFINITE {
            0
        } else if value.negative {
            -SCALE as int
        } else {
            SCALE as int
        }),
{
}

/// A larger number is no smaller on the scale.
pub proof fn law_quantized_grows(a: Binary64, b: Binary64)
    requires
        is_finite(a),
        is_finite(b),
        !a.negative,
        !b.negative,
        size(a) <= size(b),
    ensures
        helpers::quantized(a) <= helpers::quantized(b),
{
    let o = one();
    lemma_one_is_large();
    lemma_sizes(a.magnitude as nat, b.magnitude as nat);
    lemma_quantized(a);
    lemma_quantized(b);
    if 0 < a.magnitude && b.magnitude < ONE {
        lemma_integer_is_there(10_000);
        let ten = binary64::of_integer(SCALE as int);
        let t = size(ten);
        let (x, y) = (size(a) * t, size(b) * t);
        assert(x * o <= y * o) by (nonlinear_arith)
            requires
                x == size(a) * t,
                y == size(b) * t,
                size(a) <= size(b),
                t >= 0,
                o >= 0,
        ;
        exact::lemma_rounding_grows(x, o, y, o);
        let (p, q) = (binary64::rounded(x, o), binary64::rounded(y, o));
        if q < INFINITE {
            lemma_sizes(p, q);
            lemma_div_is_ordered(
                (2 * binary64::units(p) + o) as int,
                (2 * binary64::units(q) + o) as int,
                pow2(1075) as int,
            );
        }
    }
}

/// A number in units of a divisor is put on the scale as the number over the divisor.
pub proof fn law_scaled_is_the_number_over_the_divisor(value: Binary64, divisor: nat)
    requires
        is_finite(value),
        0 < divisor <= 1_000_000,
    ensures
        measured(
            helpers::scaled(value, divisor) as int,
            value.negative,
            size(value) as int,
            (divisor * one()) as int,
        ),
{
    let o = one();
    let u = size(value);
    let d = divisor;
    let all = d * o;
    lemma_one_is_large();
    assert(all > 0) by (nonlinear_arith)
        requires
            all == d * o,
            d > 0,
            o > 0,
    ;
    let part = binary64::of_fraction(1, d);
    assert(1 * pow2(1074) == o);
    let f = binary64::rounded(o, d);
    if f >= INFINITE {
        lemma_infinite_is_large(o, d);
        assert(20 * o * d > o) by (nonlinear_arith)
            requires
                d > 0,
                o > 0,
        ;
    }
    assert(part.magnitude == f);
    exact::lemma_rounding_error(o, d);
    let g = binary64::units(f);
    let n = u * g;
    let p = binary64::rounded(n, o);
    let product = binary64::product(value, part);
    assert(product == (Binary64 { negative: value.negative, magnitude: p as u64 }));
    assert(2 * o >= g * d);
    let (w, ud, uo) = (n * d, u * d, u * o);
    if p >= INFINITE {
        lemma_infinite_is_large(n, o);
        assert(u >= 10 * all) by (nonlinear_arith)
            requires
                u * g >= 20 * o * o,
                2 * o >= g * d,
                all == d * o,
                d > 0,
                o > 0,
        ;
        assert(helpers::quantized(product) == if value.negative {
            -SCALE as int
        } else {
            SCALE as int
        });
        assert(SCALE * all - SCALE * smaller(u as int, all as int) == 0);
    } else {
        exact::lemma_rounding_error(n, o);
        let big = binary64::units(p);
        let x = big * all;
        let y = u * o;
        // big * o is near u * g, and g * d is near o.
        assert(TWO_BINADES * (x - w) <= w + BINADE * all && TWO_BINADES * (w - x) <= w + BINADE
            * all) by (nonlinear_arith)
            requires
                TWO_BINADES * (big * o - n) <= n + BINADE * o,
                TWO_BINADES * (n - big * o) <= n + BINADE * o,
                x == big * all,
                all == d * o,
                w == n * d,
                d > 0,
        ;
        assert(TWO_BINADES * (w - y) <= y + BINADE * ud && TWO_BINADES * (y - w) <= y + BINADE
            * ud) by (nonlinear_arith)
            requires
                TWO_BINADES * (g * d - o) <= o + BINADE * d,
                TWO_BINADES * (o - g * d) <= o + BINADE * d,
                w == n * d,
                n == u * g,
                y == u * o,
                ud == u * d,
                u >= 0,
        ;
        assert(BINADE * ud <= y) by (nonlinear_arith)
            requires
                ud == u * d,
                y == u * o,
                d <= 1_000_000,
                o >= 0x1_0000_0000_0000_0000_0000_0000_0000_0000,
                BINADE == 0x10_0000_0000_0000,
                u >= 0,
        ;
        let z = all * o;
        assert(BINADE * all <= z) by (nonlinear_arith)
            requires
                z == all * o,
                o >= 0x1_0000_0000_0000_0000_0000_0000_0000_0000,
                BINADE == 0x10_0000_0000_0000,
                all >= 0,
        ;
        lemma_near_is_measured(product, u, all);
    }
}

/// The ratio of two numbers over ten is near to the number that binary64 arithmetic gives.
proof fn lemma_ratio(amount: Binary64, average: Binary64)
    requires
        is_finite(amount),
        is_finite(average),
        !average.negative,
        average.magnitude > 0,
    ensures
        measured(
            helpers::amount_ratio(amount, average) as int,
            amount.negative,
            size(amount) as int,
            (10 * size(average)) as int,
        ),
{
    let o = one();
    let a = size(amount);
    let b = size(average);
    lemma_one_is_large();
    exact::law_magnitudes_grow(0, average.magnitude as nat);
    assert(b > 0);
    let first = binary64::quotient(amount, average);
    let ten = binary64::of_integer(10);
    lemma_integer_is_there(10);
    assert(ten.magnitude == binary64::rounded(10 * o, 1));
    assert(size(ten) == 10 * o);
    let n = a * o;
    let p = binary64::rounded(n, b);
    assert(first == (Binary64 { negative: amount.negative, magnitude: p as u64 }));
    let d = 10 * b;
    exact::law_magnitudes_grow(0, ten.magnitude as nat);
    if p >= INFINITE {
        lemma_infinite_is_large(n, b);
        assert(a >= 20 * b) by (nonlinear_arith)
            requires
                a * o >= 20 * o * b,
                o > 0,
        ;
        assert(SCALE * d - SCALE * smaller(a as int, d as int) == 0);
    } else {
        exact::lemma_rounding_error(n, b);
        let u = binary64::units(p);
        let m = u * o;
        let e = 10 * o;
        let q = binary64::rounded(m, e);
        let second = binary64::quotient(first, ten);
        assert(second == (Binary64 { negative: amount.negative, magnitude: q as u64 }));
        exact::lemma_rounding_keeps(p, o);
        assert(m * o <= m * e) by (nonlinear_arith)
            requires
                e == 10 * o,
                m >= 0,
                o >= 0,
        ;
        exact::lemma_rounding_grows(m, e, m, o);
        exact::lemma_rounding_error(m, e);
        let big = binary64::units(q);
        assert(TWO_BINADES * (10 * big - u) <= u + BINADE * 10 && TWO_BINADES * (u - 10 * big) <= u
            + BINADE * 10) by (nonlinear_arith)
            requires
                TWO_BINADES * (big * e - m) <= m + BINADE * e,
                TWO_BINADES * (m - big * e) <= m + BINADE * e,
                e == 10 * o,
                m == u * o,
                o > 0,
        ;
        let (x, w) = (big * d, u * b);
        assert(TWO_BINADES * (x - w) <= w + BINADE * d && TWO_BINADES * (w - x) <= w + BINADE * d)
            by (nonlinear_arith)
            requires
                TWO_BINADES * (10 * big - u) <= u + BINADE * 10,
                TWO_BINADES * (u - 10 * big) <= u + BINADE * 10,
                x == big * d,
                d == 10 * b,
                w == u * b,
                b > 0,
        ;
        let z = d * o;
        assert(BINADE * d <= z && BINADE * b <= z) by (nonlinear_arith)
            requires
                z == d * o,
                d == 10 * b,
                b > 0,
                o >= 0x1_0000_0000_0000_0000_0000_0000_0000_0000,
                BINADE == 0x10_0000_0000_0000,
        ;
        lemma_near_is_measured(second, a, d);
    }
}

/// The dimension of the amount is the amount over ten times the customer's average, on the scale: it
/// is `SCALE` where there is no positive average, a tenth of the scale for an amount that is the
/// average, and a twentieth for half of it.
pub proof fn law_amount_is_measured_against_the_average(amount: Binary64, average: Binary64)
    requires
        is_finite(amount),
        is_finite(average),
    ensures
        !average.negative && size(average) > 0 ==> measured(
            helpers::amount_ratio(amount, average) as int,
            amount.negative,
            size(amount) as int,
            (10 * size(average)) as int,
        ),
        average.negative || size(average) == 0 ==> helpers::amount_ratio(amount, average) == SCALE,
        !average.negative && !amount.negative && 0 < size(amount) == size(average)
            ==> helpers::amount_ratio(amount, average) == 1000,
        !average.negative && !amount.negative && 0 < 2 * size(amount) == size(average)
            ==> helpers::amount_ratio(amount, average) == 500,
{
    exact::law_magnitudes_grow(0, 1);
    lemma_sizes(average.magnitude as nat, 0);
    if !average.negative && size(average) > 0 {
        lemma_ratio(amount, average);
        let r = helpers::amount_ratio(amount, average) as int;
        let a = size(amount) as int;
        if !amount.negative && a == size(average) {
            assert(r == 1000) by (nonlinear_arith)
                requires
                    1_000_000 * (r * (10 * a) - 10_000 * a) <= 500_001 * (10 * a),
                    -500_001 * (10 * a) <= 1_000_000 * (r * (10 * a) - 10_000 * a),
                    a > 0,
            ;
        }
        if !amount.negative && 2 * a == size(average) {
            assert(r == 500) by (nonlinear_arith)
                requires
                    1_000_000 * (r * (20 * a) - 10_000 * a) <= 500_001 * (20 * a),
                    -500_001 * (20 * a) <= 1_000_000 * (r * (20 * a) - 10_000 * a),
                    a > 0,
            ;
        }
    }
}

/// A larger amount never lowers the dimension of the amount, and a larger average never raises it.
pub proof fn law_ratio_grows_with_the_amount(
    amount: Binary64,
    larger: Binary64,
    average: Binary64,
    smaller_average: Binary64,
)
    requires
        is_finite(amount),
        is_finite(larger),
        is_finite(average),
        is_finite(smaller_average),
        !amount.negative,
        !larger.negative,
        !average.negative,
        !smaller_average.negative,
        size(amount) <= size(larger),
        0 < size(smaller_average) <= size(average),
    ensures
        helpers::amount_ratio(amount, average) <= helpers::amount_ratio(larger, smaller_average),
{
    let o = one();
    let (a, l) = (size(amount), size(larger));
    let (b, c) = (size(average), size(smaller_average));
    lemma_one_is_large();
    exact::law_magnitudes_grow(0, 1);
    lemma_sizes(average.magnitude as nat, 0);
    lemma_sizes(smaller_average.magnitude as nat, 0);
    lemma_integer_is_there(10);
    let ten = binary64::of_integer(10);
    assert(size(ten) == 10 * o);
    exact::law_magnitudes_grow(0, ten.magnitude as nat);
    let (n, m) = (a * o, l * o);
    assert(n * c <= m * b) by (nonlinear_arith)
        requires
            n == a * o,
            m == l * o,
            a <= l,
            0 < c <= b,
            o > 0,
    ;
    exact::lemma_rounding_grows(n, b, m, c);
    let (p, q) = (binary64::rounded(n, b), binary64::rounded(m, c));
    if q < INFINITE {
        let e = 10 * o;
        lemma_sizes(p, q);
        let (x, y) = (binary64::units(p) * o, binary64::units(q) * o);
        assert(x * e <= y * e) by (nonlinear_arith)
            requires
                x == binary64::units(p) * o,
                y == binary64::units(q) * o,
                binary64::units(p) <= binary64::units(q),
                o >= 0,
                e >= 0,
        ;
        exact::lemma_rounding_grows(x, e, y, e);
        exact::lemma_rounding_keeps(q, o);
        assert(y * o <= y * e) by (nonlinear_arith)
            requires
                e == 10 * o,
                y >= 0,
                o >= 0,
        ;
        exact::lemma_rounding_grows(y, e, y, o);
        let (v, w) = (binary64::rounded(x, e), binary64::rounded(y, e));
        lemma_sizes(v, w);
        law_quantized_grows(
            Binary64 { negative: false, magnitude: v as u64 },
            Binary64 { negative: false, magnitude: w as u64 },
        );
    } else {
        lemma_ratio(amount, average);
    }
}

/// A finished vector has the amount against the average in its third dimension, and in its twelfth
/// whether the merchant is none of the known ones. The others are left alone.
pub proof fn law_finished_vectors(
    out: Seq<i16>,
    amount: Binary64,
    average: Binary64,
    merchant: u64,
    known: Seq<u64>,
)
    requires
        is_finite(amount),
        is_finite(average),
        out.len() == PACKED_DIMS,
    ensures
        ({
            let r = helpers::finished(out, amount, average, merchant, known);
            &&& r.len() == PACKED_DIMS
            &&& !average.negative && size(average) > 0 ==> measured(
                r[2] as int,
                amount.negative,
                size(amount) as int,
                (10 * size(average)) as int,
            )
            &&& average.negative || size(average) == 0 ==> r[2] == SCALE
            &&& !average.negative && !amount.negative && 0 < size(amount) == size(average) ==> r[2]
                == 1000
            &&& !average.negative && !amount.negative && 0 < 2 * size(amount) == size(average)
                ==> r[2] == 500
            &&& (exists|k: int| 0 <= k < known.len() && #[trigger] known[k] == merchant) ==> r[11]
                == 0
            &&& (forall|k: int| 0 <= k < known.len() ==> #[trigger] known[k] != merchant) ==> r[11]
                == SCALE
            &&& forall|d: int|
                0 <= d < PACKED_DIMS && d != 2 && d != 11 ==> #[trigger] r[d] == out[d]
        }),
{
    law_amount_is_measured_against_the_average(amount, average);
}

/// A larger amount never lowers the third dimension of a finished vector, and a larger average never
/// raises it.
pub proof fn law_finished_vectors_grow_with_the_amount(
    out: Seq<i16>,
    amount: Binary64,
    larger: Binary64,
    average: Binary64,
    smaller_average: Binary64,
    merchant: u64,
    known: Seq<u64>,
)
    requires
        is_finite(amount),
        is_finite(larger),
        is_finite(average),
        is_finite(smaller_average),
        !amount.negative,
        !larger.negative,
        !average.negative,
        !smaller_average.negative,
        size(amount) <= size(larger),
        0 < size(smaller_average) <= size(average),
        out.len() == PACKED_DIMS,
    ensures
        helpers::finished(out, amount, average, merchant, known)[2] <= helpers::finished(
            out,
            larger,
            smaller_average,
            merchant,
            known,
        )[2],
{
    law_ratio_grows_with_the_amount(amount, larger, average, smaller_average);
}

proof fn lemma_units_of_zero()
    ensures
        binary64::units(0) == 0,
{
    exact::lemma_units(0, 0);
}

/// A fraction is put on the scale as what it is.
pub proof fn law_fractions_on_the_scale(n: nat, d: nat)
    requires
        d > 0,
    ensures
        measured(helpers::quantized(binary64::of_fraction(n, d)), false, n as int, d as int),
{
    let o = one();
    let v = n * o;
    let value = binary64::of_fraction(n, d);
    let p = binary64::rounded(v, d);
    lemma_one_is_large();
    if p >= INFINITE {
        lemma_infinite_is_large(v, d);
        assert(n >= d) by (nonlinear_arith)
            requires
                n * o >= 20 * o * d,
                o > 0,
        ;
        assert(helpers::quantized(value) == SCALE);
        assert(SCALE * d - SCALE * smaller(n as int, d as int) == 0);
    } else {
        exact::lemma_rounding_error(v, d);
        let z = d * o;
        assert(BINADE * d <= z) by (nonlinear_arith)
            requires
                z == d * o,
                o >= 0x1_0000_0000_0000_0000_0000_0000_0000_0000,
                BINADE == 0x10_0000_0000_0000,
                d >= 0,
        ;
        lemma_near_is_measured(value, n, d);
    }
}

/// An integer in units of a divisor is put on the scale as the integer over the divisor.
pub proof fn law_scaled_integers(value: int, divisor: nat)
    requires
        -0x20_0000_0000_0000 < value < 0x20_0000_0000_0000,
        0 < divisor <= 1_000_000,
    ensures
        measured(
            helpers::scaled_integer(value, divisor) as int,
            value < 0,
            if value < 0 {
                -value
            } else {
                value
            },
            divisor as int,
        ),
{
    let o = one();
    let n = (if value < 0 {
        -value
    } else {
        value
    }) as nat;
    let number = binary64::of_integer(value);
    lemma_one_is_large();
    if n == 0 {
        binary64::lemma_rounded_zero(1);
        lemma_units_of_zero();
    } else {
        lemma_integer_is_there(n);
    }
    assert(size(number) == n * o);
    law_scaled_is_the_number_over_the_divisor(number, divisor);
    let r = helpers::scaled_integer(value, divisor) as int;
    let (a, b, d) = (n * o, divisor * o, divisor as int);
    if value < 0 {
        assert(1000 * n >= 1001 * d ==> 1000 * a >= 1001 * b) by (nonlinear_arith)
            requires
                a == n * o,
                b == d * o,
                o > 0,
        ;
        assert(1000 * n <= 999 * d ==> 1000 * a <= 999 * b) by (nonlinear_arith)
            requires
                a == n * o,
                b == d * o,
                o > 0,
        ;
    } else {
        let m = smaller(n as int, d);
        assert(smaller(a as int, b as int) == m * o) by (nonlinear_arith)
            requires
                a == n * o,
                b == d * o,
                o > 0,
                m == smaller(n as int, d),
        ;
        let off = r * d - SCALE * m;
        assert(-500_001 * d <= 1_000_000 * off <= 500_001 * d) by (nonlinear_arith)
            requires
                off == r * d - 10_000 * m,
                b == d * o,
                o > 0,
                -500_001 * b <= 1_000_000 * (r * b - 10_000 * (m * o)),
                1_000_000 * (r * b - 10_000 * (m * o)) <= 500_001 * b,
        ;
    }
}

/// Infinite numbers are cut, whatever the divisor.
pub proof fn law_scaled_infinite_is_cut(value: Binary64, divisor: nat)
    requires
        value.magnitude == INFINITE,
        0 < divisor <= 1_000_000,
    ensures
        helpers::scaled(value, divisor) == (if value.negative {
            -SCALE
        } else {
            SCALE as int
        }),
{
    let o = one();
    lemma_one_is_large();
    let f = binary64::rounded(o, divisor);
    assert(1 * pow2(1074) == o);
    if f >= INFINITE {
        lemma_infinite_is_large(o, divisor);
        assert(20 * o * divisor > o) by (nonlinear_arith)
            requires
                divisor > 0,
                o > 0,
        ;
    }
    exact::lemma_rounding_error(o, divisor);
    if f == 0 {
        lemma_units_of_zero();
        let g = binary64::units(f);
        assert(g * divisor == 0) by (nonlinear_arith)
            requires
                g == 0,
        ;
    }
}

} // verus!
