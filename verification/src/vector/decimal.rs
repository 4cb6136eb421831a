//! Decimal numerals and the binary64 numbers nearest to them.

use vstd::arithmetic::div_mod::*;
use vstd::arithmetic::mul::*;
use vstd::arithmetic::power::*;
use vstd::arithmetic::power2::*;
use vstd::prelude::*;

use crate::bytes;
use crate::vector::bignum;
use crate::vector::bignum::Bignum;
use crate::vector::binary64;
use crate::vector::binary64::Binary64;

verus! {

/// `digits * 10^exponent` as the fraction of units of 2^-1074 that rounding starts from.
pub open spec fn decimal_num(digits: nat, exponent: int) -> nat {
    if exponent >= 0 {
        digits * (pow(10, exponent as nat) as nat) * pow2(1074)
    } else {
        digits * pow2(1074)
    }
}

/// The denominator that goes with `decimal_num`.
pub open spec fn decimal_den(exponent: int) -> nat {
    if exponent >= 0 {
        1
    } else {
        pow(10, (-exponent) as nat) as nat
    }
}

/// The binary64 number nearest to `digits * 10^exponent`, with the given sign.
pub open spec fn of_decimal(negative: bool, digits: nat, exponent: int) -> Binary64 {
    binary64::nearest(negative, decimal_num(digits, exponent), decimal_den(exponent))
}

proof fn lemma_pow10_large(e: nat)
    ensures
        pow(10, e) >= pow2(3 * e),
        pow(10, e) > 0,
    decreases e,
{
    reveal(pow);
    if e == 0 {
        lemma2_to64();
    } else {
        lemma_pow10_large((e - 1) as nat);
        lemma_pow2_adds(3, (3 * (e - 1)) as nat);
        lemma2_to64();
        assert(3 * e == 3 + 3 * (e - 1));
        assert(pow(10, e) == 10 * pow(10, (e - 1) as nat));
    }
}

/// Beyond the range of binary64 a fraction rounds to infinity.
proof fn lemma_rounds_to_infinity(num: nat, den: nat)
    requires
        den > 0,
        num / den >= pow2(2098),
    ensures
        binary64::rounded(num, den) == binary64::INFINITE,
{
    let q = num / den;
    binary64::lemma_bit_length_bounds(q);
    let b = binary64::bit_length(q);
    if b < 2099 {
        binary64::lemma_pow2_below(b, 2098);
    }
    let k = binary64::binade(num, den);
    lemma_pow2_pos(k);
    lemma_div_denominator(num as int, den as int, pow2(k) as int);
    binary64::lemma_bit_length_of_quotient(q, k);
    let m = q / pow2(k);
    assert(num / (den * pow2(k)) == m);
    binary64::lemma_bit_length_bounds(m);
    lemma2_to64();
    lemma2_to64_rest();
    assert(m >= 0x10_0000_0000_0000);
    assert(k * 0x10_0000_0000_0000 >= 2046 * 0x10_0000_0000_0000);
}

/// Less than half of the lowest unit rounds to zero.
proof fn lemma_rounds_to_zero(num: nat, den: nat)
    requires
        2 * num < den,
    ensures
        binary64::rounded(num, den) == 0,
{
    lemma_basic_div(num as int, den as int);
    lemma_small_mod(num, den);
    lemma2_to64();
    assert(binary64::bit_length(0) == 0);
    assert(den * pow2(0) == den) by (nonlinear_arith)
        requires
            pow2(0) == 1,
    ;
}

/// A shift count is below the number of bits of a number that it still fits in.
proof fn lemma_shift_bound(e: nat, limbs: Seq<u32>)
    requires
        pow2(e) <= bignum::value(limbs),
    ensures
        e < 32 * limbs.len(),
{
    bignum::lemma_low_value_bound(limbs, limbs.len());
    if e >= 32 * limbs.len() {
        binary64::lemma_pow2_below(32 * limbs.len(), e);
    }
}

/// The quotient of two doubled numbers leads the fraction that they came from.
proof fn lemma_quotient_leads(a: nat, b: nat, ups: nat, downs: nat, s: int, p: nat, rest: nat)
    requires
        b > 0,
        s == 1074 + downs - ups - 63,
        (a * pow2(ups)) * pow2(63) == p * (b * pow2(downs)) + rest,
        rest < b * pow2(downs),
    ensures
        binary64::leading(a * pow2(1074), b, s, p, rest != 0),
{
    let hi = binary64::up(-s);
    let lo = binary64::up(s);
    let n = a * pow2(1074) * pow2(hi);
    let d = b * pow2(lo);
    let top = a * pow2(ups) * pow2(63);
    let bottom = b * pow2(downs);
    lemma_pow2_pos(lo);
    lemma_pow2_pos(downs);
    assert(d > 0 && bottom > 0) by (nonlinear_arith)
        requires
            b > 0,
            pow2(lo) > 0,
            pow2(downs) > 0,
            d == b * pow2(lo),
            bottom == b * pow2(downs),
    ;
    lemma_fundamental_div_mod_converse(top as int, bottom as int, p as int, rest as int);
    binary64::lemma_scale_fraction(top, bottom, pow2(lo));
    binary64::lemma_scale_fraction(n, d, pow2(downs));
    assert(n * pow2(downs) == a * (pow2(1074) * pow2(hi) * pow2(downs))) by (nonlinear_arith)
        requires
            n == a * pow2(1074) * pow2(hi),
    ;
    assert(top * pow2(lo) == a * (pow2(ups) * pow2(63) * pow2(lo))) by (nonlinear_arith)
        requires
            top == a * pow2(ups) * pow2(63),
    ;
    lemma_pow2_adds(1074, hi);
    lemma_pow2_adds(1074 + hi, downs);
    lemma_pow2_adds(ups, 63);
    lemma_pow2_adds(ups + 63, lo);
    assert(1074 + hi + downs == ups + 63 + lo);
    assert(n * pow2(downs) == top * pow2(lo));
    assert(d * pow2(downs) == bottom * pow2(lo)) by (nonlinear_arith)
        requires
            d == b * pow2(lo),
            bottom == b * pow2(downs),
    ;
    let left = n % d;
    assert((left * pow2(downs) == 0) == (left == 0)) by (nonlinear_arith)
        requires
            pow2(downs) > 0,
    ;
    assert((rest * pow2(lo) == 0) == (rest == 0)) by (nonlinear_arith)
        requires
            pow2(lo) > 0,
    ;
}

/// The magnitude of the binary64 number nearest to `num / den`.
fn round_bignums(num: Bignum, den: Bignum) -> (r: u64)
    requires
        num@ > 0,
        den@ > 0,
    ensures
        r == binary64::rounded(num@ * pow2(1074), den@),
{
    let ghost a0: nat = num@;
    let ghost b0: nat = den@;
    let mut a = num;
    let mut b = den;
    let mut ups: i128 = 0;
    let mut downs: i128 = 0;
    proof {
        lemma2_to64();
        lemma2_to64_rest();
        lemma_mul_basics(a0 as int);
        lemma_mul_basics(b0 as int);
    }
    // The denominator is doubled until the fraction is below one.
    while a.minus(&b).is_some()
        invariant
            a@ == a0,
            a0 > 0,
            b0 > 0,
            downs >= 0,
            b@ == b0 * pow2(downs as nat),
            downs > 0 ==> b0 * pow2((downs - 1) as nat) <= a0,
            downs <= 0x20_0000_0000_0000_0000,
        decreases 2 * a0 + 1 - b@,
    {
        proof {
            lemma_pow2_unfold((downs + 1) as nat);
            lemma_pow2_pos(downs as nat);
            assert(pow2(downs as nat) <= b0 * pow2(downs as nat)) by (nonlinear_arith)
                requires
                    b0 >= 1,
                    pow2(downs as nat) > 0,
            ;
            lemma_shift_bound(downs as nat, a.limbs@);
            assert(a.limbs@.len() == a.limbs.len());
            assert(b0 * (2 * pow2(downs as nat)) == (b0 * pow2(downs as nat)) * 2)
                by (nonlinear_arith);
        }
        b.times_plus(2, 0);
        downs = downs + 1;
    }
    // The numerator is doubled until the fraction is at least one.
    proof {
        lemma_pow2_pos(downs as nat);
        assert(b@ > 0);
    }
    while a.minus(&b).is_none()
        invariant
            a0 > 0,
            b@ == b0 * pow2(downs as nat),
            0 <= downs <= 0x20_0000_0000_0000_0000,
            0 <= ups <= 0x20_0000_0000_0000_0000,
            a@ == a0 * pow2(ups as nat),
            a@ > 0,
            a@ < 2 * b@,
        decreases 2 * b@ - a@,
    {
        proof {
            lemma_pow2_unfold((ups + 1) as nat);
            lemma_pow2_pos(ups as nat);
            assert(pow2(ups as nat) <= a0 * pow2(ups as nat)) by (nonlinear_arith)
                requires
                    a0 >= 1,
                    pow2(ups as nat) > 0,
            ;
            lemma_shift_bound(ups as nat, b.limbs@);
            assert(b.limbs@.len() == b.limbs.len());
            assert(a0 * (2 * pow2(ups as nat)) == (a0 * pow2(ups as nat)) * 2)
                by (nonlinear_arith);
        }
        a.times_plus(2, 0);
        ups = ups + 1;
    }
    // 64 bits of the quotient.
    let ghost top: nat = a@;
    let mut p: u128 = 1;
    let mut rest = a;
    if let Some(left) = rest.minus(&b) {
        rest = left;
    }
    let mut i: u32 = 0;
    proof {
        lemma_mul_basics(top as int);
        lemma_mul_basics(b@ as int);
    }
    while i < 63
        invariant
            i <= 63,
            b@ > 0,
            top * pow2(i as nat) == p * b@ + rest@,
            rest@ < b@,
            pow2(i as nat) <= p < pow2((i + 1) as nat),
        decreases 63 - i,
    {
        proof {
            lemma_pow2_unfold((i + 1) as nat);
            lemma_pow2_unfold((i + 2) as nat);
            binary64::lemma_pow2_below((i + 2) as nat, 64);
            lemma2_to64();
            lemma2_to64_rest();
            let q = p as nat;
            let d = b@;
            let r = rest@;
            assert(top * (2 * pow2(i as nat)) == (2 * q) * d + 2 * r) by (nonlinear_arith)
                requires
                    top * pow2(i as nat) == q * d + r,
            ;
            assert((2 * q + 1) * d == (2 * q) * d + d) by (nonlinear_arith);
        }
        rest.times_plus(2, 0);
        p = 2 * p;
        if let Some(left) = rest.minus(&b) {
            rest = left;
            p = p + 1;
        }
        i = i + 1;
    }
    let sticky: bool = !rest.is_zero();
    let s: i128 = 1074 + downs - ups - 63;
    proof {
        lemma_quotient_leads(a0, b0, ups as nat, downs as nat, s as int, p as nat, rest@);
    }
    binary64::round_leading(p, s, sticky, Ghost(a0 * pow2(1074)), Ghost(b0))
}

/// The number that the digits of `s` spell after those that `number` already holds.
fn append_digits(number: &mut Bignum, s: &[u8], before: Ghost<Seq<u8>>)
    requires
        bytes::all_digits(s@),
        old(number)@ == bytes::digits_value(before@),
    ensures
        final(number)@ == bytes::digits_value(before@ + s@),
{
    let ghost before = before@;
    let mut i: usize = 0;
    assert(before + s@.take(0) =~= before);
    while i < s.len()
        invariant
            i <= s@.len(),
            bytes::all_digits(s@),
            number@ == bytes::digits_value(before + s@.take(i as int)),
        decreases s@.len() - i,
    {
        assert(bytes::is_digit(s@[i as int]));
        proof {
            assert(before + s@.take(i + 1) =~= (before + s@.take(i as int)).push(s@[i as int]));
            bytes::lemma_digits_value_push(before + s@.take(i as int), s@[i as int]);
        }
        number.times_plus(10, (s[i] - 48) as u32);
        i = i + 1;
    }
    assert(s@.take(s@.len() as int) =~= s@);
}

/// An exponent beyond which the digits of a numeral no longer matter.
const FAR: i128 = 0x10_0000_0000_0000_0000_0000_0000;

/// The number that the digits of `s` spell, or some number not below `FAR` if that is not.
fn capped_digits(s: &[u8]) -> (r: i128)
    requires
        bytes::all_digits(s@),
    ensures
        0 <= r < 10 * FAR + 10,
        r == bytes::digits_value(s@) || (r >= FAR && bytes::digits_value(s@) >= FAR),
{
    let mut r: i128 = 0;
    let mut i: usize = 0;
    while i < s.len()
        invariant
            i <= s@.len(),
            bytes::all_digits(s@),
            0 <= r < 10 * FAR + 10,
            r == bytes::digits_value(s@.take(i as int)) || (r >= FAR && bytes::digits_value(
                s@.take(i as int),
            ) >= FAR),
        decreases s@.len() - i,
    {
        assert(bytes::is_digit(s@[i as int]));
        proof {
            assert(s@.take(i + 1) =~= s@.take(i as int).push(s@[i as int]));
            bytes::lemma_digits_value_push(s@.take(i as int), s@[i as int]);
        }
        if r < FAR {
            r = r * 10 + (s[i] - 48) as i128;
        }
        i = i + 1;
    }
    assert(s@.take(s@.len() as int) =~= s@);
    r
}

pub(crate) proof fn lemma_digits_value_bound(s: Seq<u8>)
    requires
        bytes::all_digits(s),
    ensures
        bytes::digits_value(s) < pow(10, s.len()),
    decreases s.len(),
{
    reveal(pow);
    if s.len() > 0 {
        lemma_digits_value_bound(s.drop_last());
        assert(bytes::is_digit(s.last()));
        assert(pow(10, s.len()) == 10 * pow(10, (s.len() - 1) as nat));
    }
}

proof fn lemma_far_up(digits: nat, exponent: int)
    requires
        digits > 0,
        exponent >= 400,
    ensures
        binary64::rounded(decimal_num(digits, exponent), decimal_den(exponent))
            == binary64::INFINITE,
{
    let e = exponent as nat;
    lemma_pow10_large(e);
    binary64::lemma_pow2_below(1200, 3 * e);
    lemma_pow2_adds(1200, 1074);
    binary64::lemma_pow2_below(2098, 2274);
    let t = pow(10, e) as nat;
    let u = pow2(1074);
    lemma_pow2_pos(1074);
    assert(digits * t * u >= pow2(1200) * u) by (nonlinear_arith)
        requires
            digits >= 1,
            t >= pow2(1200),
            u > 0,
    ;
    let num = decimal_num(digits, exponent);
    lemma_div_basics(num as int);
    lemma_rounds_to_infinity(num, 1);
}

proof fn lemma_far_down(s: Seq<u8>, exponent: int)
    requires
        bytes::all_digits(s),
        s.len() + exponent <= -400,
    ensures
        binary64::rounded(
            decimal_num(bytes::digits_value(s), exponent),
            decimal_den(exponent),
        ) == 0,
{
    let digits = bytes::digits_value(s);
    let e = (-exponent) as nat;
    let n = s.len();
    lemma_digits_value_bound(s);
    lemma_pow_adds(10, n, (e - n) as nat);
    lemma_pow10_large((e - n) as nat);
    lemma_pow10_large(n);
    binary64::lemma_pow2_below(1200, (3 * (e - n)) as nat);
    lemma_pow2_unfold(1075);
    binary64::lemma_pow2_below(1075, 1200);
    let big = pow(10, n);
    let gap = pow(10, (e - n) as nat);
    let u = pow2(1074);
    assert(2 * (digits * u) < big * gap) by (nonlinear_arith)
        requires
            0 <= digits < big,
            gap >= 2 * u,
            u > 0,
    {
        assert(2 * (digits * u) == digits * (2 * u));
        assert(digits * (2 * u) < big * (2 * u));
        assert(big * (2 * u) <= big * gap);
    }
    lemma_rounds_to_zero(decimal_num(digits, exponent), decimal_den(exponent));
}

/// The binary64 number nearest to the numeral with the digits `whole`, a point, the digits
/// `fraction` and the exponent that `exponent_digits` spell.
pub fn nearest_decimal(
    negative: bool,
    whole: &[u8],
    fraction: &[u8],
    exponent_negative: bool,
    exponent_digits: &[u8],
) -> (r: Binary64)
    requires
        bytes::all_digits(whole@),
        bytes::all_digits(fraction@),
        bytes::all_digits(exponent_digits@),
        whole@.len() + fraction@.len() <= usize::MAX,
    ensures
        r.wf(),
        r == ({
            let e = bytes::digits_value(exponent_digits@) as int;
            of_decimal(
                negative,
                bytes::digits_value(whole@ + fraction@),
                (if exponent_negative {
                    -e
                } else {
                    e
                }) - fraction@.len(),
            )
        }),
{
    let ghost all: Seq<u8> = whole@ + fraction@;
    let ghost true_e: int = bytes::digits_value(exponent_digits@) as int;
    let ghost exponent: int = (if exponent_negative {
        -true_e
    } else {
        true_e
    }) - fraction@.len();
    let mut digits = Bignum::from_u32(0);
    append_digits(&mut digits, whole, Ghost(Seq::empty()));
    assert(Seq::<u8>::empty() + whole@ =~= whole@);
    append_digits(&mut digits, fraction, Ghost(whole@));
    assert forall|i: int| 0 <= i < all.len() implies bytes::is_digit(#[trigger] all[i]) by {
        if i < whole@.len() {
            assert(bytes::is_digit(whole@[i]));
        } else {
            assert(bytes::is_digit(fraction@[i - whole@.len()]));
        }
    }
    let capped: i128 = capped_digits(exponent_digits);
    let e: i128 = (if exponent_negative {
        0 - capped
    } else {
        capped
    }) - fraction.len() as i128;
    let total: usize = whole.len() + fraction.len();
    proof {
        binary64::lemma_rounded_bound(
            decimal_num(bytes::digits_value(all), exponent),
            decimal_den(exponent),
        );
        if exponent < 0 {
            lemma_pow10_large((-exponent) as nat);
        }
    }
    if digits.is_zero() {
        proof {
            assert(decimal_num(0, exponent) == 0) by {
                if exponent >= 0 {
                    let t = pow(10, exponent as nat) as nat;
                    assert(0 * t * pow2(1074) == 0) by (nonlinear_arith);
                } else {
                    assert(0 * pow2(1074) == 0);
                }
            }
            binary64::lemma_rounded_zero(decimal_den(exponent));
        }
        return Binary64 { negative, magnitude: 0 };
    }
    if e >= 400 {
        proof {
            lemma_far_up(bytes::digits_value(all), exponent);
        }
        return Binary64 { negative, magnitude: binary64::INFINITE };
    }
    if total as i128 + e <= -400 {
        proof {
            lemma_far_down(all, exponent);
        }
        return Binary64 { negative, magnitude: 0 };
    }
    assert(e == exponent);
    if e >= 0 {
        let ghost d0: nat = digits@;
        let mut i: i128 = 0;
        proof {
            reveal(pow);
            lemma_mul_basics(d0 as int);
        }
        while i < e
            invariant
                0 <= i <= e,
                d0 > 0,
                digits@ == d0 * pow(10, i as nat),
                digits@ > 0,
            decreases e - i,
        {
            proof {
                reveal(pow);
                let t = pow(10, i as nat);
                assert(pow(10, (i + 1) as nat) == 10 * t);
                assert(d0 * (10 * t) == (d0 * t) * 10) by (nonlinear_arith);
            }
            digits.times_plus(10, 0);
            i = i + 1;
        }
        let magnitude: u64 = round_bignums(digits, Bignum::from_u32(1));
        proof {
            lemma_pow10_large(e as nat);
        }
        Binary64 { negative, magnitude }
    } else {
        let mut den = Bignum::from_u32(1);
        let mut i: i128 = 0;
        proof {
            reveal(pow);
        }
        while i < 0 - e
            invariant
                0 <= i <= -e,
                den@ == pow(10, i as nat),
                den@ > 0,
                e > -0x1000_0000_0000_0000_0000_0000_0000_0000,
            decreases -e - i,
        {
            proof {
                reveal(pow);
                assert(pow(10, (i + 1) as nat) == 10 * pow(10, i as nat));
            }
            den.times_plus(10, 0);
            i = i + 1;
        }
        let magnitude: u64 = round_bignums(digits, den);
        Binary64 { negative, magnitude }
    }
}

} // verus!
