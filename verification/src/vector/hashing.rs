//! How far hashes tell names apart.

use vstd::arithmetic::div_mod::*;
use vstd::prelude::*;

use crate::vector::helpers;
use crate::vector::helpers::HASH_SEED;

verus! {

/// 2^64.
spec fn words() -> int {
    0x1_0000_0000_0000_0000
}

/// What undoes a multiplication with the seed.
spec fn inverse() -> int {
    0x2040_003d_7809_70bd
}

proof fn lemma_multiplied(a: u64)
    ensures
        (((a as int * HASH_SEED as int) % words()) * inverse()) % words() == a,
{
    let (x, s, i, m) = (a as int, HASH_SEED as int, inverse(), words());
    let carry = 739706870995725965int;
    assert(s * i == 1 + carry * m);
    lemma_mul_mod_noop_left(x * s, i, m);
    assert((x * s) * i == m * (x * carry) + x) by (nonlinear_arith)
        requires
            s * i == 1 + carry * m,
    ;
    lemma_fundamental_div_mod_converse((x * s) * i, m, x * carry, x);
}

proof fn lemma_turned(h: u64, g: u64, v: u64, w: u64)
    by (bit_vector)
    ensures
        ((h << 5) | (h >> 59)) ^ w == ((g << 5) | (g >> 59)) ^ w ==> h == g,
        ((h << 5) | (h >> 59)) ^ v == ((h << 5) | (h >> 59)) ^ w ==> v == w,
{
}

/// A step of the hash loses nothing: from another hash, or with another word, it leads elsewhere.
pub proof fn law_hash_steps_lose_nothing(h: u64, g: u64, v: u64, w: u64)
    ensures
        h != g ==> helpers::hash_step(h, w as nat) != helpers::hash_step(g, w as nat),
        v != w ==> helpers::hash_step(h, v as nat) != helpers::hash_step(h, w as nat),
{
    lemma_turned(h, g, v, w);
    lemma_multiplied(((h << 5) | (h >> 59)) ^ w);
    lemma_multiplied(((g << 5) | (g >> 59)) ^ w);
    lemma_multiplied(((h << 5) | (h >> 59)) ^ v);
}

proof fn lemma_word(s: Seq<u8>)
    requires
        s.len() == 8,
    ensures
        helpers::little_endian(s) == s[0] + 0x100 * s[1] + 0x1_0000 * s[2] + 0x100_0000 * s[3]
            + 0x1_0000_0000 * s[4] + 0x100_0000_0000 * s[5] + 0x1_0000_0000_0000 * s[6]
            + 0x100_0000_0000_0000 * s[7],
        helpers::little_endian(s) < words(),
{
    reveal_with_fuel(helpers::little_endian, 9);
}

proof fn lemma_hash_from(h: u64, g: u64, s: Seq<u8>, t: Seq<u8>, at: int, p: int)
    requires
        s.len() == t.len(),
        0 <= at,
        0 <= p < s.len(),
        s[p] != t[p],
        forall|k: int| 0 <= k < s.len() && k != p ==> #[trigger] s[k] == t[k],
        p < at ==> h != g,
        at <= p ==> h == g,
    ensures
        helpers::hash_from(h, s, at) != helpers::hash_from(g, t, at),
    decreases s.len() - at,
{
    if at < s.len() {
        if at + 8 <= s.len() {
            let (x, y) = (s.subrange(at, at + 8), t.subrange(at, at + 8));
            lemma_word(x);
            lemma_word(y);
            let (v, w) = (helpers::little_endian(x), helpers::little_endian(y));
            assert forall|k: int| 0 <= k < 8 implies x[k] == s[at + k] && y[k] == t[at + k] && (at + k
                != p ==> x[k] == y[k]) by {
                if at + k != p {
                    assert(s[at + k] == t[at + k]);
                }
            }
            if at <= p < at + 8 {
                let k = p - at;
                assert(x[k] != y[k]);
                assert(k == 0 || k == 1 || k == 2 || k == 3 || k == 4 || k == 5 || k == 6 || k == 7);
                assert(v != w);
            } else {
                assert(x =~= y);
            }
            law_hash_steps_lose_nothing(h, g, v as u64, w as u64);
            lemma_hash_from(
                helpers::hash_step(h, v),
                helpers::hash_step(g, w),
                s,
                t,
                at + 8,
                p,
            );
        } else {
            if at != p {
                assert(s[at] == t[at]);
            }
            law_hash_steps_lose_nothing(h, g, s[at] as u64, t[at] as u64);
            lemma_hash_from(
                helpers::hash_step(h, s[at] as nat),
                helpers::hash_step(g, t[at] as nat),
                s,
                t,
                at + 1,
                p,
            );
        }
    }
}

/// Names that differ in one byte have different hashes: every byte of a name counts.
pub proof fn law_every_byte_of_a_name_counts(s: Seq<u8>, t: Seq<u8>, p: int)
    requires
        s.len() == t.len(),
        0 <= p < s.len(),
        s[p] != t[p],
        forall|k: int| 0 <= k < s.len() && k != p ==> #[trigger] s[k] == t[k],
    ensures
        helpers::hash_of(s) != helpers::hash_of(t),
{
    lemma_hash_from(HASH_SEED, HASH_SEED, s, t, 0, p);
}

} // verus!
