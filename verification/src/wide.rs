//! Fixed-width unsigned integers, wide enough to hold exact sums of terms
//! `c * 2^k` that arise when single-precision numbers are compared without
//! rounding.

use vstd::arithmetic::power2::{lemma2_to64, lemma_pow2_adds, lemma_pow2_pos, lemma_pow2_strictly_increases, lemma_pow2_unfold, pow2};
use vstd::prelude::*;

verus! {

/// Number of 32-bit limbs in a [`Wide`].
pub const LIMBS: usize = 20;

/// Number of bits in a [`Wide`].
pub open spec fn width() -> nat {
    640
}

/// The number that a little-endian sequence of 32-bit limbs stands for.
pub closed spec fn limbs_value(s: Seq<u32>) -> nat
    decreases s.len(),
{
    if s.len() == 0 {
        0
    } else {
        limbs_value(s.drop_last()) + (s.last() as nat) * pow2((32 * (s.len() - 1)) as nat)
    }
}

/// `2^(32 * (i + 1))` is `2^32` times `2^(32 * i)`.
proof fn lemma_limb_weight(i: nat)
    ensures
        pow2(32 * (i + 1)) == 0x1_0000_0000 * pow2(32 * i),
        pow2(32 * i) > 0,
{
    lemma2_to64();
    lemma_pow2_adds(32, 32 * i);
    lemma_pow2_pos(32 * i);
}

/// A sequence of `n` limbs stands for a number below `2^(32 * n)`.
proof fn lemma_limbs_bound(s: Seq<u32>)
    ensures
        limbs_value(s) < pow2(32 * s.len()),
    decreases s.len(),
{
    if s.len() == 0 {
        lemma2_to64();
    } else {
        let n = (s.len() - 1) as nat;
        lemma_limbs_bound(s.drop_last());
        lemma_limb_weight(n);
        let p = pow2(32 * n);
        let top = s.last() as nat;
        assert(top * p + p <= 0x1_0000_0000 * p) by (nonlinear_arith)
            requires
                top < 0x1_0000_0000,
                p > 0,
        ;
    }
}

/// Replacing limb `i` changes the number by the difference of the two limbs
/// times the weight of position `i`.
proof fn lemma_limbs_update(s: Seq<u32>, i: int, v: u32)
    requires
        0 <= i < s.len(),
    ensures
        limbs_value(s.update(i, v)) + (s[i] as nat) * pow2((32 * i) as nat) == limbs_value(s) + (
        v as nat) * pow2((32 * i) as nat),
    decreases s.len(),
{
    let t = s.update(i, v);
    if i == s.len() - 1 {
        assert(t.drop_last() =~= s.drop_last());
    } else {
        assert(t.drop_last() =~= s.drop_last().update(i, v));
        lemma_limbs_update(s.drop_last(), i, v);
    }
}

/// Two limb sequences that agree from position `i` upwards differ by as much
/// as their first `i` limbs do.
proof fn lemma_limbs_common_top(a: Seq<u32>, b: Seq<u32>, i: int)
    requires
        a.len() == b.len(),
        0 <= i <= a.len(),
        forall|j: int| i <= j < a.len() ==> a[j] == b[j],
    ensures
        limbs_value(a) - limbs_value(a.take(i)) == limbs_value(b) - limbs_value(b.take(i)),
    decreases a.len() - i,
{
    if i == a.len() {
        assert(a.take(i) =~= a);
        assert(b.take(i) =~= b);
    } else {
        lemma_limbs_common_top(a.drop_last(), b.drop_last(), i);
        assert(a.drop_last().take(i) =~= a.take(i));
        assert(b.drop_last().take(i) =~= b.take(i));
    }
}

/// A term `c * 2^shift` with a 64-bit `c` and `shift <= 512` is below `2^576`,
/// so that `2^64` such terms still fit in 640 bits.
pub proof fn lemma_term_bound(c: u64, shift: nat)
    requires
        shift <= 512,
    ensures
        c * pow2(shift) < pow2(576),
        0x1_0000_0000_0000_0000 * pow2(576) == pow2(width()),
{
    lemma2_to64();
    lemma_pow2_adds(64, 512);
    lemma_pow2_adds(64, 576);
    lemma_pow2_pos(shift);
    if shift < 512 {
        lemma_pow2_strictly_increases(shift, 512);
    }
    let p = pow2(shift);
    let q = pow2(512);
    assert(c * p < 0x1_0000_0000_0000_0000 * q) by (nonlinear_arith)
        requires
            c < 0x1_0000_0000_0000_0000,
            0 < p <= q,
    ;
}

/// An unsigned integer of 640 bits.
pub struct Wide {
    limbs: Vec<u32>,
}

impl Wide {
    /// Holds when the number has its full set of limbs.
    pub closed spec fn wf(&self) -> bool {
        self.limbs.len() == LIMBS
    }

    /// The number held.
    pub closed spec fn value(&self) -> nat {
        limbs_value(self.limbs@)
    }

    /// Zero.
    pub fn zero() -> (r: Wide)
        ensures
            r.wf(),
            r.value() == 0,
    {
        let mut limbs: Vec<u32> = Vec::new();
        let mut i: usize = 0;
        while i < LIMBS
            invariant
                i <= LIMBS,
                limbs.len() == i,
                limbs_value(limbs@) == 0,
            decreases LIMBS - i,
        {
            let ghost before = limbs@;
            limbs.push(0u32);
            i = i + 1;
            proof {
                assert(limbs@.drop_last() =~= before);
                assert(limbs@.last() == 0u32);
            }
        }
        Wide { limbs }
    }

    /// Adds `c * 2^shift`.
    pub fn add_shifted(&mut self, c: u64, shift: u32)
        requires
            old(self).wf(),
            old(self).value() + c * pow2(shift as nat) < pow2(width()),
        ensures
            final(self).wf(),
            final(self).value() == old(self).value() + c * pow2(shift as nat),
    {
        let start: usize = (shift / 32) as usize;
        let low: u32 = shift % 32;
        let mut carry: u128 = c as u128;
        let mut doubled: u32 = 0;
        proof {
            lemma2_to64();
        }
        while doubled < low
            invariant
                doubled <= low < 32,
                carry == c * pow2(doubled as nat),
                carry < 0x1_0000_0000_0000_0000_0000_0000,
            decreases low - doubled,
        {
            proof {
                lemma2_to64();
                lemma_pow2_unfold((doubled + 1) as nat);
                lemma_pow2_strictly_increases((doubled + 1) as nat, 32);
                let p = pow2((doubled + 1) as nat);
                assert(c * p < 0x1_0000_0000_0000_0000_0000_0000) by (nonlinear_arith)
                    requires
                        c < 0x1_0000_0000_0000_0000,
                        p < 0x1_0000_0000,
                ;
                assert(c * (2 * pow2(doubled as nat)) == 2 * (c * pow2(doubled as nat)))
                    by (nonlinear_arith);
            }
            carry = carry * 2;
            doubled = doubled + 1;
        }
        let ghost total = old(self).value() + c * pow2(shift as nat);
        proof {
            lemma2_to64();
            lemma_pow2_adds(low as nat, (32 * start) as nat);
            assert(shift == low + 32 * start);
            assert(c * (pow2(low as nat) * pow2((32 * start) as nat)) == (c * pow2(low as nat))
                * pow2((32 * start) as nat)) by (nonlinear_arith);
        }
        let mut i: usize = start;
        while i < LIMBS
            invariant
                start <= i,
                self.limbs.len() == LIMBS,
                carry < 0x1_0000_0000_0000_0000_0000_0000,
                limbs_value(self.limbs@) + carry * pow2((32 * i) as nat) == total,
            decreases LIMBS - i,
        {
            let limb: u32 = self.limbs[i];
            let sum: u128 = limb as u128 + carry;
            let kept: u32 = (sum % 0x1_0000_0000) as u32;
            proof {
                lemma_limbs_update(self.limbs@, i as int, kept);
                lemma_limb_weight(i as nat);
                let p = pow2((32 * i) as nat);
                let q = sum / 0x1_0000_0000;
                assert(sum == q * 0x1_0000_0000 + kept);
                assert(q * (0x1_0000_0000 * p) + kept * p == (limb + carry) * p)
                    by (nonlinear_arith)
                    requires
                        limb + carry == q * 0x1_0000_0000 + kept,
                ;
                assert((limb + carry) * p == limb * p + carry * p) by (nonlinear_arith);
            }
            self.limbs.set(i, kept);
            carry = sum / 0x1_0000_0000;
            i = i + 1;
        }
        proof {
            lemma_limbs_bound(self.limbs@);
            let p = pow2((32 * i) as nat);
            if i > LIMBS {
                lemma_pow2_strictly_increases(width(), (32 * i) as nat);
            }
            assert(p >= pow2(width()));
            if carry > 0 {
                assert(carry * p >= p) by (nonlinear_arith)
                    requires
                        carry >= 1,
                        p >= 0,
                ;
            }
        }
    }

    /// Whether this number is smaller than `other`.
    pub fn lt(&self, other: &Wide) -> (r: bool)
        requires
            self.wf(),
            other.wf(),
        ensures
            r == (self.value() < other.value()),
    {
        let mut i: usize = LIMBS;
        while i > 0
            invariant
                i <= LIMBS,
                self.limbs.len() == LIMBS,
                other.limbs.len() == LIMBS,
                forall|j: int| i <= j < LIMBS ==> self.limbs[j] == other.limbs[j],
            decreases i,
        {
            i = i - 1;
            let a: u32 = self.limbs[i];
            let b: u32 = other.limbs[i];
            if a != b {
                proof {
                    let sa = self.limbs@;
                    let sb = other.limbs@;
                    lemma_limbs_common_top(sa, sb, i + 1);
                    assert(sa.take(i + 1).drop_last() =~= sa.take(i as int));
                    assert(sb.take(i + 1).drop_last() =~= sb.take(i as int));
                    lemma_limbs_bound(sa.take(i as int));
                    lemma_limbs_bound(sb.take(i as int));
                    let p = pow2((32 * i) as nat);
                    if a < b {
                        assert(a * p + p <= b * p) by (nonlinear_arith)
                            requires
                                a + 1 <= b,
                                p >= 0,
                        ;
                    } else {
                        assert(b * p + p <= a * p) by (nonlinear_arith)
                            requires
                                b + 1 <= a,
                                p >= 0,
                        ;
                    }
                }
                return a < b;
            }
        }
        proof {
            lemma_limbs_common_top(self.limbs@, other.limbs@, 0);
            assert(self.limbs@.take(0) =~= other.limbs@.take(0));
        }
        false
    }
}

} // verus!
