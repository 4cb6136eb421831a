//! Natural numbers of any size, as limbs of 32 bits with the lowest first.

use vstd::arithmetic::power2::*;
use vstd::prelude::*;

verus! {

/// Limb `i` of a number; the limbs past the end are zero.
pub open spec fn limb(s: Seq<u32>, i: int) -> nat {
    if 0 <= i < s.len() {
        s[i] as nat
    } else {
        0
    }
}

/// The number that the lowest `n` limbs hold.
pub open spec fn low_value(s: Seq<u32>, n: nat) -> nat
    decreases n,
{
    if n == 0 {
        0
    } else {
        low_value(s, (n - 1) as nat) + limb(s, n - 1) * pow2((32 * (n - 1)) as nat)
    }
}

/// The number that the limbs hold.
pub open spec fn value(s: Seq<u32>) -> nat {
    low_value(s, s.len())
}

proof fn lemma_low_value_agree(a: Seq<u32>, b: Seq<u32>, n: nat)
    requires
        forall|i: int| 0 <= i < n ==> limb(a, i) == limb(b, i),
    ensures
        low_value(a, n) == low_value(b, n),
    decreases n,
{
    if n > 0 {
        assert(limb(a, n - 1) == limb(b, n - 1));
        lemma_low_value_agree(a, b, (n - 1) as nat);
    }
}

proof fn lemma_low_value_beyond(s: Seq<u32>, n: nat)
    requires
        n >= s.len(),
    ensures
        low_value(s, n) == value(s),
    decreases n,
{
    if n > s.len() {
        lemma_low_value_beyond(s, (n - 1) as nat);
        assert(0 * pow2((32 * (n - 1)) as nat) == 0);
    }
}

pub(crate) proof fn lemma_low_value_bound(s: Seq<u32>, n: nat)
    ensures
        low_value(s, n) < pow2(32 * n),
    decreases n,
{
    if n == 0 {
        lemma2_to64();
    } else {
        lemma_low_value_bound(s, (n - 1) as nat);
        let w = pow2((32 * (n - 1)) as nat);
        lemma_unit_step((n - 1) as nat);
        let l = limb(s, n - 1);
        assert(l * w <= 0xffff_ffff * w) by (nonlinear_arith)
            requires
                l <= 0xffff_ffff,
        ;
    }
}

/// The weight of each limb is 2^32 times that of the one below.
proof fn lemma_unit_step(n: nat)
    ensures
        pow2((32 * (n + 1)) as nat) == 0x1_0000_0000 * pow2(32 * n),
        pow2(32 * n) > 0,
{
    lemma_pow2_adds(32, 32 * n);
    lemma2_to64();
    lemma_pow2_pos(32 * n);
    assert(32 * (n + 1) == 32 + 32 * n);
}

/// A natural number of any size.
pub struct Bignum {
    pub limbs: Vec<u32>,
}

impl View for Bignum {
    type V = nat;

    open spec fn view(&self) -> nat {
        value(self.limbs@)
    }
}

impl Bignum {
    /// The number `n`.
    pub fn from_u32(n: u32) -> (r: Self)
        ensures
            r@ == n,
    {
        let mut limbs: Vec<u32> = Vec::new();
        limbs.push(n);
        proof {
            lemma2_to64();
            assert(low_value(limbs@, 0) == 0);
            assert(low_value(limbs@, 1) == low_value(limbs@, 0) + limb(limbs@, 0) * pow2(0));
        }
        Bignum { limbs }
    }

    /// Replaces the number by `self * factor + addend`.
    pub fn times_plus(&mut self, factor: u32, addend: u32)
        ensures
            final(self)@ == old(self)@ * factor + addend,
    {
        let ghost before: Seq<u32> = self.limbs@;
        let n: usize = self.limbs.len();
        let mut carry: u32 = addend;
        let mut i: usize = 0;
        proof {
            lemma2_to64();
            let low = low_value(before, 0);
            let w = pow2(0);
            assert(low + addend * w == low * factor + addend) by (nonlinear_arith)
                requires
                    low == 0,
                    w == 1,
            ;
        }
        while i < n
            invariant
                i <= n,
                n == before.len(),
                self.limbs@.len() == n,
                forall|j: int| i <= j < n ==> self.limbs@[j] == before[j],
                low_value(self.limbs@, i as nat) + carry * pow2((32 * i) as nat) == low_value(
                    before,
                    i as nat,
                ) * factor + addend,
            decreases n - i,
        {
            let ghost mid: Seq<u32> = self.limbs@;
            let l: u32 = self.limbs[i];
            assert(l * factor + carry <= 0xffff_ffff * 0xffff_ffff + 0xffff_ffff) by (nonlinear_arith)
                requires
                    l <= 0xffff_ffff,
                    factor <= 0xffff_ffff,
                    carry <= 0xffff_ffff,
            ;
            let wide: u64 = l as u64 * factor as u64 + carry as u64;
            let rest: u32 = (wide % 0x1_0000_0000) as u32;
            let next: u32 = (wide / 0x1_0000_0000) as u32;
            self.limbs.set(i, rest);
            proof {
                let w = pow2((32 * i) as nat);
                lemma_unit_step(i as nat);
                lemma_low_value_agree(mid, self.limbs@, i as nat);
                let low = low_value(mid, i as nat);
                let old_low = low_value(before, i as nat);
                assert(low + rest * w + next * (0x1_0000_0000 * w) == (old_low + l * w) * factor
                    + addend) by (nonlinear_arith)
                    requires
                        low + carry * w == old_low * factor + addend,
                        wide == l * factor + carry,
                        wide == next * 0x1_0000_0000 + rest,
                ;
            }
            carry = next;
            i = i + 1;
        }
        if carry > 0 {
            let ghost mid: Seq<u32> = self.limbs@;
            self.limbs.push(carry);
            proof {
                lemma_low_value_agree(mid, self.limbs@, n as nat);
            }
        } else {
            assert(0 * pow2((32 * n) as nat) == 0);
        }
    }

    /// `self - other`, where that is not below zero.
    pub fn minus(&self, other: &Self) -> (r: Option<Self>)
        ensures
            r is Some <==> self@ >= other@,
            r matches Some(d) ==> d@ == self@ - other@,
    {
        let n: usize = if self.limbs.len() >= other.limbs.len() {
            self.limbs.len()
        } else {
            other.limbs.len()
        };
        let mut limbs: Vec<u32> = Vec::new();
        let mut borrow: u64 = 0;
        let mut i: usize = 0;
        while i < n
            invariant
                i <= n,
                n >= self.limbs@.len(),
                n >= other.limbs@.len(),
                limbs@.len() == i,
                borrow <= 1,
                low_value(limbs@, i as nat) + low_value(other.limbs@, i as nat) == low_value(
                    self.limbs@,
                    i as nat,
                ) + borrow * pow2((32 * i) as nat),
            decreases n - i,
        {
            let a: u64 = if i < self.limbs.len() { self.limbs[i] as u64 } else { 0 };
            let b: u64 = if i < other.limbs.len() { other.limbs[i] as u64 } else { 0 };
            let wide: u64 = 0x1_0000_0000 + a - b - borrow;
            let rest: u32 = (wide % 0x1_0000_0000) as u32;
            let next: u64 = if wide < 0x1_0000_0000 { 1 } else { 0 };
            let ghost mid: Seq<u32> = limbs@;
            limbs.push(rest);
            proof {
                let w = pow2((32 * i) as nat);
                lemma_unit_step(i as nat);
                lemma_low_value_agree(mid, limbs@, i as nat);
                let low = low_value(mid, i as nat);
                let sub = low_value(other.limbs@, i as nat);
                let top = low_value(self.limbs@, i as nat);
                assert(low + rest * w + (sub + b * w) == top + a * w + next * (0x1_0000_0000 * w))
                    by (nonlinear_arith)
                    requires
                        low + sub == top + borrow * w,
                        rest + b + borrow == a + next * 0x1_0000_0000,
                ;
            }
            borrow = next;
            i = i + 1;
        }
        proof {
            lemma_low_value_beyond(self.limbs@, n as nat);
            lemma_low_value_beyond(other.limbs@, n as nat);
            lemma_low_value_bound(limbs@, n as nat);
            assert(0 * pow2((32 * n) as nat) == 0 && 1 * pow2((32 * n) as nat) == pow2(
                (32 * n) as nat,
            ));
        }
        if borrow == 0 {
            Some(Bignum { limbs })
        } else {
            None
        }
    }

    /// Tells whether the number is zero.
    pub fn is_zero(&self) -> (r: bool)
        ensures
            r == (self@ == 0),
    {
        let mut i: usize = 0;
        proof {
            lemma2_to64();
        }
        while i < self.limbs.len()
            invariant
                i <= self.limbs@.len(),
                low_value(self.limbs@, i as nat) == 0,
            decreases self.limbs@.len() - i,
        {
            if self.limbs[i] != 0 {
                proof {
                    lemma_low_value_positive(self.limbs@, i as int, self.limbs@.len());
                }
                return false;
            }
            assert(0 * pow2((32 * i) as nat) == 0);
            i = i + 1;
        }
        true
    }
}

proof fn lemma_low_value_positive(s: Seq<u32>, i: int, n: nat)
    requires
        0 <= i < n,
        limb(s, i) > 0,
    ensures
        low_value(s, n) > 0,
    decreases n,
{
    if i == n - 1 {
        lemma_pow2_pos((32 * (n - 1)) as nat);
        assert(limb(s, i) * pow2((32 * (n - 1)) as nat) > 0) by (nonlinear_arith)
            requires
                limb(s, i) > 0,
                pow2((32 * (n - 1)) as nat) > 0,
        ;
    } else {
        lemma_low_value_positive(s, i, (n - 1) as nat);
    }
}

} // verus!
