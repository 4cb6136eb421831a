//! IEEE 754 binary64 arithmetic on integers.
//!
//! A finite binary64 number is a whole number of units of 2^-1074, so every exact result of a
//! product, a quotient or a decimal numeral is a fraction of such units. One function, `rounded`,
//! says which binary64 number is nearest to a fraction; each operation is stated through it.

use vstd::arithmetic::div_mod::*;
use vstd::arithmetic::mul::*;
use vstd::arithmetic::power2::*;
use vstd::prelude::*;

verus! {

/// The magnitude bits of infinity; larger magnitudes are NaN.
pub const INFINITE: u64 = 0x7ff0_0000_0000_0000;

/// The magnitude bits of 1.
pub const ONE: u64 = 0x3ff0_0000_0000_0000;

/// The weight of the lowest exponent bit, 2^52.
pub const BINADE: u64 = 0x10_0000_0000_0000;

/// Number of bits of `x` in binary; 0 for 0.
pub open spec fn bit_length(x: nat) -> nat
    decreases x,
{
    if x == 0 {
        0
    } else {
        1 + bit_length(x / 2)
    }
}

/// `n / d` rounded to the nearest integer, ties to the even one.
pub open spec fn nearest_even(n: nat, d: nat) -> nat {
    let q = n / d;
    let r = n % d;
    if 2 * r < d || (2 * r == d && q % 2 == 0) {
        q
    } else {
        q + 1
    }
}

/// How many binades above the lowest one `num / den` units lie.
pub open spec fn binade(num: nat, den: nat) -> nat {
    let bits = bit_length(num / den);
    if bits <= 53 {
        0
    } else {
        (bits - 53) as nat
    }
}

/// Magnitude bits of the binary64 number nearest to `num / den` units of 2^-1074, ties to even.
pub open spec fn rounded(num: nat, den: nat) -> nat {
    let k = binade(num, den);
    let mag = k * BINADE as nat + nearest_even(num, den * pow2(k));
    if mag < INFINITE {
        mag
    } else {
        INFINITE as nat
    }
}

/// Exponent of the unit in the last place of a finite magnitude, counted from 2^-1074.
pub open spec fn exponent_of(mag: nat) -> nat {
    if mag < BINADE {
        0
    } else {
        (mag / BINADE as nat - 1) as nat
    }
}

/// Significand of a finite magnitude.
pub open spec fn significand_of(mag: nat) -> nat {
    (mag - exponent_of(mag) * BINADE) as nat
}

/// A finite magnitude in units of 2^-1074.
pub open spec fn units(mag: nat) -> nat {
    significand_of(mag) * pow2(exponent_of(mag))
}

pub(crate) proof fn lemma_bit_length_bounds(x: nat)
    ensures
        x < pow2(bit_length(x)),
        x > 0 ==> bit_length(x) > 0 && pow2((bit_length(x) - 1) as nat) <= x,
    decreases x,
{
    if x == 0 {
        lemma2_to64();
    } else {
        lemma_bit_length_bounds(x / 2);
        let b = bit_length(x / 2);
        lemma_pow2_unfold(b + 1);
        if x / 2 > 0 {
            lemma_pow2_unfold(b);
        } else {
            lemma2_to64();
        }
    }
}

pub(crate) proof fn lemma_bit_length_of_quotient(x: nat, j: nat)
    ensures
        bit_length(x / pow2(j)) == if bit_length(x) <= j {
            0
        } else {
            (bit_length(x) - j) as nat
        },
    decreases j,
{
    if j == 0 {
        lemma2_to64();
        assert(x / 1 == x);
    } else {
        let half = x / 2;
        lemma_bit_length_of_quotient(half, (j - 1) as nat);
        lemma_pow2_unfold(j);
        lemma_pow2_pos((j - 1) as nat);
        lemma_div_denominator(x as int, 2, pow2((j - 1) as nat) as int);
        assert(x / pow2(j) == half / pow2((j - 1) as nat));
        if x == 0 {
            assert(half == 0);
            assert(bit_length(half) == 0);
        } else {
            assert(bit_length(x) == 1 + bit_length(half));
        }
    }
}

pub(crate) proof fn lemma_scale_fraction(n: nat, d: nat, c: nat)
    requires
        d > 0,
        c > 0,
    ensures
        d * c > 0,
        (n * c) / (d * c) == n / d,
        (n * c) % (d * c) == (n % d) * c,
        nearest_even(n * c, d * c) == nearest_even(n, d),
{
    let q = n / d;
    let r = n % d;
    lemma_fundamental_div_mod(n as int, d as int);
    assert(d * c > 0 && n * c == q * (d * c) + r * c && 0 <= r * c < d * c) by (nonlinear_arith)
        requires
            d > 0,
            c > 0,
            n == d * q + r,
            0 <= r < d,
    ;
    lemma_fundamental_div_mod_converse((n * c) as int, (d * c) as int, q as int, (r * c) as int);
    assert((2 * r < d) == (2 * (r * c) < d * c) && (2 * r == d) == (2 * (r * c) == d * c))
        by (nonlinear_arith)
        requires
            c > 0,
    ;
}

/// Rounding of a fraction known by its leading bits: `p` is the integer part of `n / d`, and the
/// fraction is cut off `2^t` above the unit of `p`.
proof fn lemma_nearest_even_by_parts(n: nat, d: nat, half: nat)
    requires
        d > 0,
        half > 0,
    ensures
        nearest_even(n, d * (2 * half)) == ({
            let p = n / d;
            let q = p / (2 * half);
            let low = p % (2 * half);
            if low < half || (low == half && n % d == 0 && q % 2 == 0) {
                q
            } else {
                q + 1
            }
        }),
{
    let p = n / d;
    let r = n % d;
    let t = 2 * half;
    let q = p / t;
    let low = p % t;
    lemma_fundamental_div_mod(n as int, d as int);
    lemma_fundamental_div_mod(p as int, t as int);
    assert(n == q * (d * t) + (low * d + r) && 0 <= low * d + r < d * t) by (nonlinear_arith)
        requires
            n == d * p + r,
            p == t * q + low,
            0 <= r < d,
            0 <= low < t,
    ;
    lemma_fundamental_div_mod_converse(n as int, (d * t) as int, q as int, (low * d + r) as int);
    let rem = low * d + r;
    assert(d * t == 2 * (half * d)) by (nonlinear_arith)
        requires
            t == 2 * half,
    ;
    if low < half {
        assert(rem < half * d) by (nonlinear_arith)
            requires
                rem == low * d + r,
                r < d,
                low + 1 <= half,
        ;
    } else if low > half {
        assert(rem > half * d) by (nonlinear_arith)
            requires
                rem == low * d + r,
                0 <= r,
                low >= half + 1,
                d > 0,
        ;
    } else {
        assert(rem == half * d + r);
    }
}

/// `2^e`.
fn power_of_two(e: u32) -> (r: u128)
    requires
        e < 128,
    ensures
        r == pow2(e as nat),
{
    let mut r: u128 = 1;
    let mut i: u32 = 0;
    proof {
        lemma2_to64();
    }
    while i < e
        invariant
            i <= e,
            e < 128,
            r == pow2(i as nat),
        decreases e - i,
    {
        proof {
            lemma_pow2_unfold((i + 1) as nat);
            lemma_pow2_below((i + 1) as nat, 127);
            lemma_pow2_127();
        }
        r = r * 2;
        i = i + 1;
    }
    r
}

proof fn lemma_pow2_127()
    ensures
        pow2(127) == 0x8000_0000_0000_0000_0000_0000_0000_0000,
{
    lemma2_to64();
    lemma_pow2_adds(64, 63);
    lemma2_to64_rest();
    assert(pow2(63) == 0x8000_0000_0000_0000);
    assert(pow2(64) == 0x1_0000_0000_0000_0000);
}

pub(crate) proof fn lemma_pow2_below(a: nat, b: nat)
    requires
        a <= b,
    ensures
        0 < pow2(a) <= pow2(b),
{
    lemma_pow2_pos(a);
    if a < b {
        lemma_pow2_strictly_increases(a, b);
    }
}

/// Positive part of a shift.
pub(crate) open spec fn up(s: int) -> nat {
    if s > 0 {
        s as nat
    } else {
        0
    }
}

/// `p` is the integer part of `num / den` in units of `2^s`, and `sticky` tells whether anything
/// is left over.
pub(crate) open spec fn leading(num: nat, den: nat, s: int, p: nat, sticky: bool) -> bool {
    let n = num * pow2(up(-s));
    let d = den * pow2(up(s));
    &&& d > 0
    &&& p == n / d
    &&& sticky == (n % d != 0)
}

proof fn lemma_leading_bits(num: nat, den: nat, s: int, p: nat, sticky: bool)
    requires
        den > 0,
        p > 0,
        leading(num, den, s, p, sticky),
    ensures
        bit_length(num / den) == up(bit_length(p) + s),
{
    lemma_bit_length_bounds(p);
    if s >= 0 {
        lemma2_to64();
        assert(num * 1 == num);
        lemma_pow2_pos(s as nat);
        lemma_div_denominator(num as int, den as int, pow2(s as nat) as int);
        lemma_bit_length_of_quotient(num / den, s as nat);
    } else {
        let h = (-s) as nat;
        lemma2_to64();
        assert(den * 1 == den);
        lemma_pow2_pos(h);
        lemma_div_denominator((num * pow2(h)) as int, den as int, pow2(h) as int);
        lemma_scale_fraction(num, den, pow2(h));
        lemma_bit_length_of_quotient(p, h);
    }
}

/// The fraction over the unit of its binade, written over the unit of `p`.
proof fn lemma_leading_rescaled(num: nat, den: nat, s: int, k: nat)
    requires
        den > 0,
    ensures
        k >= s ==> nearest_even(num, den * pow2(k)) == nearest_even(
            num * pow2(up(-s)),
            den * pow2(up(s)) * pow2((k - s) as nat),
        ),
        k <= s ==> nearest_even(num, den * pow2(k)) == nearest_even(
            num * pow2((s - k) as nat),
            den * pow2(s as nat),
        ),
{
    lemma_pow2_pos(k);
    assert(den * pow2(k) > 0) by (nonlinear_arith)
        requires
            den > 0,
            pow2(k) > 0,
    ;
    if k >= s {
        let c = pow2(up(-s));
        lemma_pow2_pos(up(-s));
        lemma_scale_fraction(num, den * pow2(k), c);
        lemma_pow2_adds(k, up(-s));
        lemma_pow2_adds(up(s), (k - s) as nat);
        assert(den * pow2(k) * c == den * (pow2(k) * c)) by (nonlinear_arith);
        assert(den * pow2(up(s)) * pow2((k - s) as nat) == den * (pow2(up(s)) * pow2(
            (k - s) as nat,
        ))) by (nonlinear_arith);
    }
    if k <= s {
        let c = pow2((s - k) as nat);
        lemma_pow2_pos((s - k) as nat);
        lemma_scale_fraction(num, den * pow2(k), c);
        lemma_pow2_adds(k, (s - k) as nat);
        assert(den * pow2(k) * c == den * (pow2(k) * c)) by (nonlinear_arith);
    }
}

/// Number of bits of `x` in binary.
fn bits(x: u128) -> (r: u32)
    ensures
        r == bit_length(x as nat),
        r <= 128,
{
    let mut rest: u128 = x;
    let mut r: u32 = 0;
    proof {
        lemma_bit_length_bounds(x as nat);
        lemma2_to64();
        lemma_pow2_127();
        lemma_pow2_unfold(128);
        if bit_length(x as nat) > 128 {
            lemma_pow2_below(128, (bit_length(x as nat) - 1) as nat);
        }
    }
    while rest > 0
        invariant
            r + bit_length(rest as nat) == bit_length(x as nat),
            bit_length(x as nat) <= 128,
        decreases rest,
    {
        rest = rest / 2;
        r = r + 1;
    }
    r
}

/// Rounds a value known by its leading bits: `p` units of `2^s`, counted from 2^-1074, and a
/// little more where `sticky` says so.
pub(crate) fn round_leading(p: u128, s: i128, sticky: bool, num: Ghost<nat>, den: Ghost<nat>) -> (r: u64)
    requires
        p > 0,
        -0x1_0000_0000_0000_0000_0000 <= s <= 0x1_0000_0000_0000_0000_0000,
        den@ > 0,
        leading(num@, den@, s as int, p as nat, sticky),
        sticky ==> p >= 0x20_0000_0000_0000,
    ensures
        r == rounded(num@, den@),
{
    let ghost num = num@;
    let ghost den = den@;
    let length: i128 = bits(p) as i128;
    let k: i128 = if length + s > 53 {
        length + s - 53
    } else {
        0
    };
    proof {
        lemma_leading_bits(num, den, s as int, p as nat, sticky);
        lemma_leading_rescaled(num, den, s as int, k as nat);
        lemma_bit_length_bounds(p as nat);
        lemma2_to64();
        lemma2_to64_rest();
        lemma_pow2_127();
    }
    assert(k == binade(num, den));
    let ghost n = num * pow2(up(-s as int));
    let ghost d = den * pow2(up(s as int));
    let t: i128 = k - s;
    let q: u64;
    if t <= 0 {
        // The value is a whole number of units of its binade.
        let shift: u32 = (-t) as u32;
        proof {
            assert(!sticky) by {
                if sticky {
                    if length < 54 {
                        lemma_pow2_below(length as nat, 53);
                    }
                }
            }
            assert(length + shift <= 53);
            lemma_pow2_adds(length as nat, shift as nat);
            lemma_pow2_below((length + shift) as nat, 53);
            lemma_pow2_pos(shift as nat);
            assert(p * pow2(shift as nat) < pow2(length as nat) * pow2(shift as nat))
                by (nonlinear_arith)
                requires
                    p < pow2(length as nat),
                    pow2(shift as nat) > 0,
            ;
            assert(up(-s as int) == 0);
            assert(num * pow2(0) == num) by (nonlinear_arith)
                requires
                    pow2(0) == 1,
            ;
            lemma_fundamental_div_mod(num as int, d as int);
            assert(num == d * p);
            let c = pow2(shift as nat);
            assert(num * c == (p * c) * d) by (nonlinear_arith)
                requires
                    num == d * p,
            ;
            lemma_fundamental_div_mod_converse((num * c) as int, d as int, (p * c) as int, 0);
            assert(nearest_even(num, den * pow2(k as nat)) == p * c);
        }
        let c: u128 = power_of_two(shift);
        q = (p * c) as u64;
    } else if t > 128 {
        proof {
            let half = pow2((t - 1) as nat);
            lemma_pow2_unfold(t as nat);
            lemma_pow2_unfold(128);
            lemma_pow2_below(128, (t - 1) as nat);
            lemma_nearest_even_by_parts(n, d, half);
            lemma_small_mod(p as nat, (2 * half) as nat);
            lemma_basic_div(p as int, (2 * half) as int);
        }
        q = 0;
    } else {
        let half: u128 = power_of_two((t - 1) as u32);
        proof {
            lemma_pow2_unfold(t as nat);
            lemma_pow2_pos((t - 1) as nat);
            lemma_nearest_even_by_parts(n, d, half as nat);
        }
        // `low` is what lies below the unit of the binade.
        let above: u128 = p / half;
        let whole: u128 = above / 2;
        let low: u128 = if above % 2 == 1 {
            proof {
                lemma_pow2_below((t - 1) as nat, 127);
                lemma_mod_pos_bound(p as int, half as int);
            }
            p % half + half
        } else {
            p % half
        };
        proof {
            lemma_div_denominator(p as int, half as int, 2);
            lemma_mod_breakdown(p as int, half as int, 2);
            assert(half * 2 == 2 * half);
            assert(whole == p as nat / (2 * half as nat));
            assert(half * 1 == half && half * 0 == 0);
            assert(low == p as nat % (2 * half as nat));
            lemma_bit_length_of_quotient(p as nat, t as nat);
            lemma_bit_length_bounds(whole as nat);
            assert(bit_length(whole as nat) <= 53);
            lemma_pow2_below(bit_length(whole as nat), 53);
        }
        if low < half || (low == half && !sticky && whole % 2 == 0) {
            q = whole as u64;
        } else {
            q = whole as u64 + 1;
        }
    }
    assert(q == nearest_even(num, den * pow2(k as nat)));
    if k >= 2047 {
        INFINITE
    } else {
        let mag: u64 = k as u64 * BINADE + q;
        if mag < INFINITE {
            mag
        } else {
            INFINITE
        }
    }
}


/// A binary64 number: its sign bit and the other 63 bits.
#[derive(Clone, Copy, Debug, PartialEq, Eq, Structural)]
pub struct Binary64 {
    pub negative: bool,
    pub magnitude: u64,
}

/// The NaN that operations return.
pub open spec fn nan() -> Binary64 {
    Binary64 { negative: false, magnitude: 0x7ff8_0000_0000_0000 }
}

/// The number with the given sign whose magnitude is nearest to `num / den` units of 2^-1074.
pub open spec fn nearest(negative: bool, num: nat, den: nat) -> Binary64 {
    Binary64 { negative, magnitude: rounded(num, den) as u64 }
}

/// The number nearest to the integer `value`.
pub open spec fn of_integer(value: int) -> Binary64 {
    nearest(value < 0, (if value < 0 { -value } else { value }) as nat * pow2(1074), 1)
}

/// The number nearest to the fraction `num / den`.
pub open spec fn of_fraction(num: nat, den: nat) -> Binary64 {
    nearest(false, num * pow2(1074), den)
}

/// The product `a * b`.
pub open spec fn product(a: Binary64, b: Binary64) -> Binary64 {
    let negative = a.negative != b.negative;
    if a.is_nan() || b.is_nan() {
        nan()
    } else if a.is_infinite() || b.is_infinite() {
        if a.magnitude == 0 || b.magnitude == 0 {
            nan()
        } else {
            Binary64 { negative, magnitude: INFINITE }
        }
    } else {
        nearest(negative, units(a.magnitude as nat) * units(b.magnitude as nat), pow2(1074))
    }
}

/// The quotient `a / b`.
pub open spec fn quotient(a: Binary64, b: Binary64) -> Binary64 {
    let negative = a.negative != b.negative;
    if a.is_nan() || b.is_nan() {
        nan()
    } else if a.is_infinite() {
        if b.is_infinite() {
            nan()
        } else {
            Binary64 { negative, magnitude: INFINITE }
        }
    } else if b.is_infinite() {
        Binary64 { negative, magnitude: 0 }
    } else if b.magnitude == 0 {
        if a.magnitude == 0 {
            nan()
        } else {
            Binary64 { negative, magnitude: INFINITE }
        }
    } else {
        nearest(negative, units(a.magnitude as nat) * pow2(1074), units(b.magnitude as nat))
    }
}

impl Binary64 {
    /// The bits name a number: the sign bit is apart from the magnitude.
    pub open spec fn wf(self) -> bool {
        self.magnitude < 0x8000_0000_0000_0000
    }

    pub open spec fn is_nan(self) -> bool {
        self.magnitude > INFINITE
    }

    pub open spec fn is_infinite(self) -> bool {
        self.magnitude == INFINITE
    }

    /// The number is greater than zero.
    pub open spec fn above_zero(self) -> bool {
        !self.negative && 0 < self.magnitude <= INFINITE
    }

    /// The number is less than or equal to zero.
    pub open spec fn at_most_zero(self) -> bool {
        self.magnitude == 0 || (self.negative && !self.is_nan())
    }

    /// The nearest integer to the number, halves away from zero, cut to the range of `i16`; 0 for
    /// NaN.
    pub open spec fn rounded_to_i16(self) -> int {
        let whole = (2 * units(self.magnitude as nat) + pow2(1074)) as nat / pow2(1075);
        if self.is_nan() {
            0
        } else if self.negative {
            if self.is_infinite() || whole > 32768 {
                -32768
            } else {
                -whole
            }
        } else {
            if self.is_infinite() || whole > 32767 {
                32767
            } else {
                whole as int
            }
        }
    }
}

pub(crate) proof fn lemma_rounded_bound(num: nat, den: nat)
    ensures
        rounded(num, den) <= INFINITE,
{
}

/// Significand and exponent of a finite magnitude.
fn parts(mag: u64) -> (r: (u64, u32))
    requires
        mag < INFINITE,
    ensures
        r.0 == significand_of(mag as nat),
        r.1 == exponent_of(mag as nat),
        r.0 < 0x20_0000_0000_0000,
        r.1 <= 2045,
        r.0 == 0 <==> mag == 0,
{
    if mag < BINADE {
        (mag, 0)
    } else {
        let k: u64 = mag / BINADE - 1;
        assert(mag / 0x10_0000_0000_0000 <= 2046);
        (mag - k * BINADE, k as u32)
    }
}

/// The magnitude nearest to `m * 2^(k + s)`.
fn round_exact(m: u128, k: i32, num: Ghost<nat>, den: Ghost<nat>) -> (r: u64)
    requires
        m > 0,
        -10_000 <= k <= 10_000,
        den@ > 0,
        num@ * pow2(up(-k as int)) == m * (den@ * pow2(up(k as int))),
    ensures
        r == rounded(num@, den@),
{
    proof {
        let n = num@ * pow2(up(-k as int));
        let d = den@ * pow2(up(k as int));
        lemma_pow2_pos(up(k as int));
        assert(d > 0) by (nonlinear_arith)
            requires
                den@ > 0,
                pow2(up(k as int)) > 0,
                d == den@ * pow2(up(k as int)),
        ;
        lemma_fundamental_div_mod_converse(n as int, d as int, m as int, 0);
    }
    round_leading(m, k as i128, false, num, den)
}

impl Binary64 {
    /// The number with the given bits.
    pub fn from_bits(bits: u64) -> (r: Self)
        ensures
            r.wf(),
            r.negative == (bits >= 0x8000_0000_0000_0000),
            r.magnitude == bits as nat % 0x8000_0000_0000_0000,
    {
        Binary64 {
            negative: bits >= 0x8000_0000_0000_0000,
            magnitude: bits % 0x8000_0000_0000_0000,
        }
    }

    /// The number's bits.
    pub fn to_bits(self) -> (r: u64)
        requires
            self.wf(),
        ensures
            r == self.magnitude + if self.negative {
                0x8000_0000_0000_0000int
            } else {
                0
            },
    {
        if self.negative {
            self.magnitude + 0x8000_0000_0000_0000
        } else {
            self.magnitude
        }
    }

    /// The number nearest to `value`.
    pub fn from_u64(value: u64) -> (r: Self)
        ensures
            r.wf(),
            r == of_integer(value as int),
    {
        proof {
            lemma_rounded_bound(value as nat * pow2(1074), 1);
        }
        if value == 0 {
            proof {
                lemma_rounded_zero(1);
                assert(0 * pow2(1074) == 0);
            }
            Binary64 { negative: false, magnitude: 0 }
        } else {
            let ghost num: nat = value as nat * pow2(1074);
            proof {
                lemma2_to64();
                assert(num * 1 == num);
                assert(1 * pow2(1074) == pow2(1074));
            }
            Binary64 { negative: false, magnitude: round_exact(value as u128, 1074, Ghost(num), Ghost(1)) }
        }
    }

    /// The number nearest to `value`.
    pub fn from_i64(value: i64) -> (r: Self)
        requires
            value > i64::MIN,
        ensures
            r.wf(),
            r == of_integer(value as int),
    {
        if value < 0 {
            let r = Self::from_u64((-value) as u64);
            Binary64 { negative: true, magnitude: r.magnitude }
        } else {
            Self::from_u64(value as u64)
        }
    }

    /// The number nearest to `num / den`.
    pub fn from_fraction(num: u64, den: u64) -> (r: Self)
        requires
            den > 0,
        ensures
            r.wf(),
            r == of_fraction(num as nat, den as nat),
    {
        proof {
            lemma_rounded_bound(num as nat * pow2(1074), den as nat);
        }
        if num == 0 {
            proof {
                lemma_rounded_zero(den as nat);
                assert(0 * pow2(1074) == 0);
            }
            Binary64 { negative: false, magnitude: 0 }
        } else {
            let mag: u64 = divide_significands(num, 1074, den, 0);
            proof {
                lemma2_to64();
                assert(den as nat * 1 == den as nat);
            }
            Binary64 { negative: false, magnitude: mag }
        }
    }

    /// `self * other`.
    pub fn times(self, other: Self) -> (r: Self)
        requires
            self.wf(),
            other.wf(),
        ensures
            r.wf(),
            r == product(self, other),
    {
        let negative: bool = self.negative != other.negative;
        let a: u64 = self.magnitude;
        let b: u64 = other.magnitude;
        if a > INFINITE || b > INFINITE || (a == INFINITE && b == 0) || (b == INFINITE && a == 0) {
            Binary64 { negative: false, magnitude: 0x7ff8_0000_0000_0000 }
        } else if a == INFINITE || b == INFINITE {
            Binary64 { negative, magnitude: INFINITE }
        } else {
            let (ma, ka) = parts(a);
            let (mb, kb) = parts(b);
            let ghost num: nat = units(a as nat) * units(b as nat);
            proof {
                lemma_rounded_bound(num, pow2(1074));
                lemma_pow2_pos(1074);
            }
            if a == 0 || b == 0 {
                proof {
                    assert(num == 0) by (nonlinear_arith)
                        requires
                            num == (ma * pow2(ka as nat)) * (mb * pow2(kb as nat)),
                            ma == 0 || mb == 0,
                    ;
                    lemma_rounded_zero(pow2(1074));
                }
                return Binary64 { negative, magnitude: 0 };
            }
            assert(0 < ma * mb < 0x20_0000_0000_0000 * 0x20_0000_0000_0000) by (nonlinear_arith)
                requires
                    0 < ma < 0x20_0000_0000_0000,
                    0 < mb < 0x20_0000_0000_0000,
            ;
            let m: u128 = ma as u128 * mb as u128;
            let k: i32 = ka as i32 + kb as i32 - 1074;
            proof {
                let e = (ka + kb) as nat;
                lemma_pow2_adds(ka as nat, kb as nat);
                assert(num == m * pow2(e)) by (nonlinear_arith)
                    requires
                        num == (ma * pow2(ka as nat)) * (mb * pow2(kb as nat)),
                        m == ma * mb,
                        pow2(e) == pow2(ka as nat) * pow2(kb as nat),
                ;
                lemma_pow2_adds(e, up(-k as int));
                lemma_pow2_adds(1074, up(k as int));
                assert(num * pow2(up(-k as int)) == m * (pow2(e) * pow2(up(-k as int))))
                    by (nonlinear_arith)
                    requires
                        num == m * pow2(e),
                ;
            }
            Binary64 { negative, magnitude: round_exact(m, k, Ghost(num), Ghost(pow2(1074))) }
        }
    }

    /// `self / other`.
    pub fn over(self, other: Self) -> (r: Self)
        requires
            self.wf(),
            other.wf(),
        ensures
            r.wf(),
            r == quotient(self, other),
    {
        let negative: bool = self.negative != other.negative;
        let a: u64 = self.magnitude;
        let b: u64 = other.magnitude;
        if a > INFINITE || b > INFINITE || (a == INFINITE && b == INFINITE) || (a == 0 && b == 0) {
            Binary64 { negative: false, magnitude: 0x7ff8_0000_0000_0000 }
        } else if a == INFINITE {
            Binary64 { negative, magnitude: INFINITE }
        } else if b == INFINITE {
            Binary64 { negative, magnitude: 0 }
        } else if b == 0 {
            Binary64 { negative, magnitude: INFINITE }
        } else {
            let (ma, ka) = parts(a);
            let (mb, kb) = parts(b);
            let ghost num: nat = units(a as nat) * pow2(1074);
            proof {
                lemma_rounded_bound(num, units(b as nat));
            }
            if a == 0 {
                proof {
                    assert(num == 0) by (nonlinear_arith)
                        requires
                            num == (ma * pow2(ka as nat)) * pow2(1074),
                            ma == 0,
                    ;
                    lemma_pow2_pos(kb as nat);
                    assert(mb * pow2(kb as nat) > 0) by (nonlinear_arith)
                        requires
                            mb > 0,
                            pow2(kb as nat) > 0,
                    ;
                    lemma_rounded_zero(units(b as nat));
                }
                return Binary64 { negative, magnitude: 0 };
            }
            proof {
                lemma_pow2_adds(ka as nat, 1074);
                assert(num == ma * (pow2(ka as nat) * pow2(1074))) by (nonlinear_arith)
                    requires
                        num == (ma * pow2(ka as nat)) * pow2(1074),
                ;
            }
            Binary64 { negative, magnitude: divide_significands(ma, ka + 1074, mb, kb) }
        }
    }

    /// The number with the opposite sign.
    pub fn negated(self) -> (r: Self)
        ensures
            r == (Binary64 { negative: !self.negative, magnitude: self.magnitude }),
    {
        Binary64 { negative: !self.negative, magnitude: self.magnitude }
    }

    /// The nearest integer, halves away from zero, cut to the range of `i16`; 0 for NaN.
    pub fn round_to_i16(self) -> (r: i16)
        requires
            self.wf(),
        ensures
            r == self.rounded_to_i16(),
    {
        if self.magnitude > INFINITE {
            return 0;
        }
        if self.magnitude == INFINITE {
            return if self.negative { -32768 } else { 32767 };
        }
        let (m, k) = parts(self.magnitude);
        let ghost whole: nat = (2 * units(self.magnitude as nat) + pow2(1074)) as nat / pow2(1075);
        let limited: u64;
        proof {
            lemma2_to64();
            lemma2_to64_rest();
            lemma_pow2_pos(k as nat);
            lemma_pow2_unfold(1075);
            lemma_pow2_pos(1074);
        }
        if k >= 1074 {
            // The number is an integer of at least 2^52.
            proof {
                lemma_pow2_below(1074, k as nat);
                assert(2 * (m * pow2(k as nat)) >= 32769 * (2 * pow2(1074))) by (nonlinear_arith)
                    requires
                        m >= 0x10_0000_0000_0000,
                        pow2(k as nat) >= pow2(1074),
                        pow2(1074) > 0,
                ;
                lemma_div_is_ordered(
                    (32769 * pow2(1075)) as int,
                    (2 * units(self.magnitude as nat) + pow2(1074)) as int,
                    pow2(1075) as int,
                );
                lemma_div_multiples_vanish(32769, pow2(1075) as int);
                assert(whole >= 32769);
            }
            limited = 32769;
        } else {
            let r: u32 = 1074 - k;
            let ghost x: nat = (2 * units(self.magnitude as nat) + pow2(1074)) as nat;
            proof {
                lemma_pow2_adds(r as nat, k as nat);
                lemma_pow2_unfold(r as nat + 1);
                let c = pow2(k as nat);
                assert(x == (2 * m + pow2(r as nat)) * c) by (nonlinear_arith)
                    requires
                        x == 2 * (m * c) + pow2(1074),
                        pow2(1074) == pow2(r as nat) * c,
                ;
                assert(pow2(1075) == pow2((r + 1) as nat) * c) by (nonlinear_arith)
                    requires
                        pow2(1075) == 2 * pow2(1074),
                        pow2(1074) == pow2(r as nat) * c,
                        pow2((r + 1) as nat) == 2 * pow2(r as nat),
                ;
                lemma_pow2_pos((r + 1) as nat);
                lemma_scale_fraction((2 * m + pow2(r as nat)) as nat, pow2((r + 1) as nat), c);
                assert(whole == (2 * m + pow2(r as nat)) as nat / pow2((r + 1) as nat));
            }
            if r >= 60 {
                proof {
                    lemma_pow2_below(60, r as nat);
                    lemma_basic_div((2 * m + pow2(r as nat)) as int, pow2((r + 1) as nat) as int);
                }
                limited = 0;
            } else {
                proof {
                    lemma_pow2_below(r as nat, 60);
                    lemma_pow2_below((r + 1) as nat, 60);
                }
                let unit: u64 = power_of_two(r) as u64;
                let w: u64 = (2 * m + unit) / (2 * unit);
                limited = if w > 32769 { 32769 } else { w };
            }
        }
        if self.negative {
            if limited > 32768 {
                -32768
            } else {
                (0 - limited as i32) as i16
            }
        } else if limited > 32767 {
            32767
        } else {
            limited as i16
        }
    }
}

pub(crate) proof fn lemma_rounded_zero(den: nat)
    requires
        den > 0,
    ensures
        rounded(0, den) == 0,
{
    lemma_basic_div(0, den as int);
    lemma2_to64();
    assert(bit_length(0) == 0);
    assert(den * pow2(0) == den) by (nonlinear_arith)
        requires
            pow2(0) == 1,
    ;
    lemma_small_mod(0, den);
}

/// The magnitude nearest to `ma * 2^ka / (mb * 2^kb)` units of 2^-1074.
fn divide_significands(ma: u64, ka: u32, mb: u64, kb: u32) -> (r: u64)
    requires
        ma > 0,
        mb > 0,
        ka <= 4000,
        kb <= 4000,
    ensures
        r == rounded(ma as nat * pow2(ka as nat), mb as nat * pow2(kb as nat)),
{
    let ghost num: nat = ma as nat * pow2(ka as nat);
    let ghost den: nat = mb as nat * pow2(kb as nat);
    let length: u32 = bits(ma as u128);
    proof {
        lemma_bit_length_bounds(ma as nat);
        lemma2_to64_rest();
        lemma2_to64();
        lemma_pow2_127();
        if length > 64 {
            lemma_pow2_below(64, (length - 1) as nat);
        }
        lemma_pow2_unfold(127);
        lemma_pow2_unfold(126);
    }
    // The dividend is shifted up until its highest bit stands at 126.
    let j: u32 = 127 - length;
    let c: u128 = power_of_two(j);
    proof {
        lemma_pow2_adds(length as nat, j as nat);
        lemma_pow2_adds((length - 1) as nat, j as nat);
        lemma_pow2_pos(j as nat);
        assert(pow2(126) <= ma * c < pow2(127)) by (nonlinear_arith)
            requires
                pow2((length - 1) as nat) <= ma < pow2(length as nat),
                pow2(length as nat) * c == pow2(127),
                pow2((length - 1) as nat) * c == pow2(126),
                c > 0,
        ;
    }
    let shifted: u128 = ma as u128 * c;
    let p: u128 = shifted / mb as u128;
    let sticky: bool = shifted % mb as u128 != 0;
    let s: i32 = ka as i32 - kb as i32 - j as i32;
    proof {
        assert(p >= pow2(62)) by {
            lemma_pow2_adds(62, 64);
            lemma_div_is_ordered_by_denominator(shifted as int, mb as int, pow2(64) as int);
            lemma_div_is_ordered(pow2(126) as int, shifted as int, pow2(64) as int);
            lemma_div_multiples_vanish(pow2(62) as int, pow2(64) as int);
            assert(pow2(62) * pow2(64) == pow2(64) * pow2(62)) by (nonlinear_arith);
        }
        let x = pow2(kb as nat + up(s as int));
        lemma_pow2_pos(kb as nat + up(s as int));
        lemma_pow2_pos(kb as nat);
        assert(ka + up(-s as int) == j + kb + up(s as int));
        lemma_pow2_adds(ka as nat, up(-s as int));
        lemma_pow2_adds(j as nat, kb as nat + up(s as int));
        lemma_pow2_adds(kb as nat, up(s as int));
        assert(num * pow2(up(-s as int)) == shifted * x) by (nonlinear_arith)
            requires
                num == ma * pow2(ka as nat),
                shifted == ma * c,
                pow2(ka as nat) * pow2(up(-s as int)) == c * x,
        ;
        assert(den * pow2(up(s as int)) == mb * x) by (nonlinear_arith)
            requires
                den == mb * pow2(kb as nat),
                pow2(kb as nat) * pow2(up(s as int)) == x,
        ;
        lemma_scale_fraction(shifted as nat, mb as nat, x);
        assert(den > 0) by (nonlinear_arith)
            requires
                den == mb * pow2(kb as nat),
                mb > 0,
                pow2(kb as nat) > 0,
        ;
        let rest = shifted as nat % mb as nat;
        assert(rest > 0 ==> rest * x > 0) by (nonlinear_arith)
            requires
                x > 0,
        ;
        assert(0 * x == 0);
    }
    round_leading(p, s as i128, sticky, Ghost(num), Ghost(den))
}

} // verus!
