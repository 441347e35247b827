//! Natural numbers of any size, kept as 32-bit limbs, least significant
//! first. The table of powers of ten is computed with them.
use vstd::arithmetic::div_mod::lemma_fundamental_div_mod_converse;
use vstd::arithmetic::power2::{lemma2_to64, lemma_pow2_adds, lemma_pow2_pos, pow2};
use vstd::prelude::*;

verus! {

/// The weight of one limb over the one below it: `2^32`.
pub const LIMB_BASE: u64 = 0x1_0000_0000;

/// The number that the limbs in `s` spell, least significant first.
pub open spec fn limbs_value(s: Seq<u32>) -> nat
    decreases s.len(),
{
    if s.len() == 0 {
        0
    } else {
        s[0] as nat + LIMB_BASE as nat * limbs_value(s.drop_first())
    }
}

/// The weight of the limb at place `n`: `2^(32 n)`.
pub open spec fn limb_weight(n: nat) -> nat {
    pow2(32 * n)
}

/// Each limb weighs `2^32` times the one below it.
pub proof fn lemma_limb_weight_step(n: nat)
    ensures
        limb_weight(n + 1) == LIMB_BASE * limb_weight(n),
        limb_weight(0) == 1,
        limb_weight(n) > 0,
{
    lemma2_to64();
    lemma_pow2_adds(32, 32 * n);
    lemma_pow2_pos(32 * n);
    assert(32 * (n + 1) == 32 + 32 * n);
}

/// The value of two runs of limbs set end to end.
pub proof fn lemma_value_concat(a: Seq<u32>, b: Seq<u32>)
    ensures
        limbs_value(a + b) == limbs_value(a) + limb_weight(a.len()) * limbs_value(b),
    decreases a.len(),
{
    lemma_limb_weight_step(0);
    if a.len() == 0 {
        assert(a + b =~= b);
    } else {
        let a1 = a.drop_first();
        assert((a + b).drop_first() =~= a1 + b);
        lemma_value_concat(a1, b);
        lemma_limb_weight_step(a1.len());
        let w = limb_weight(a1.len());
        let vb = limbs_value(b);
        let va = limbs_value(a1);
        assert(LIMB_BASE as nat * (va + w * vb) == LIMB_BASE as nat * va + (LIMB_BASE as nat * w)
            * vb) by (nonlinear_arith);
    }
}

/// A single limb spells itself.
pub proof fn lemma_value_single(x: u32)
    ensures
        limbs_value(seq![x]) == x,
{
    assert(seq![x].drop_first() =~= Seq::<u32>::empty());
    assert(limbs_value(Seq::<u32>::empty()) == 0);
}

/// A run of `n` limbs spells a number below `2^(32 n)`.
pub proof fn lemma_value_bound(s: Seq<u32>)
    ensures
        limbs_value(s) < limb_weight(s.len()),
    decreases s.len(),
{
    lemma_limb_weight_step(0);
    if s.len() > 0 {
        let t = s.drop_first();
        lemma_value_bound(t);
        lemma_limb_weight_step(t.len());
        let v = limbs_value(t);
        let w = limb_weight(t.len());
        assert(s[0] as nat + LIMB_BASE as nat * v < LIMB_BASE as nat * w) by (nonlinear_arith)
            requires
                v < w,
                s[0] < LIMB_BASE,
        ;
    }
}

/// A run whose top limb is not zero spells at least the weight of that limb.
pub proof fn lemma_value_top(s: Seq<u32>)
    requires
        s.len() > 0,
        s.last() != 0,
    ensures
        limbs_value(s) >= limb_weight((s.len() - 1) as nat),
{
    let a = s.drop_last();
    assert(s =~= a + seq![s.last()]);
    lemma_value_concat(a, seq![s.last()]);
    lemma_value_single(s.last());
    let w = limb_weight(a.len());
    let x = s.last() as nat;
    assert(w * x >= w) by (nonlinear_arith)
        requires
            x >= 1,
            w >= 0,
    ;
}

/// A zero on top adds nothing.
pub proof fn lemma_value_drop_zero(s: Seq<u32>)
    requires
        s.len() > 0,
        s.last() == 0,
    ensures
        limbs_value(s.drop_last()) == limbs_value(s),
{
    let a = s.drop_last();
    assert(s =~= a + seq![s.last()]);
    lemma_value_concat(a, seq![s.last()]);
    lemma_value_single(s.last());
    assert(limb_weight(a.len()) * 0 == 0) by (nonlinear_arith);
}

/// A natural number of any size.
pub struct BigNat {
    limbs: Vec<u32>,
}

impl View for BigNat {
    type V = nat;

    closed spec fn view(&self) -> nat {
        limbs_value(self.limbs@)
    }
}

impl BigNat {
    /// How many limbs are kept, zeros on top included.
    pub closed spec fn limb_count(&self) -> nat {
        self.limbs@.len()
    }

    /// The limb on top is not zero, so the count of limbs tells the size.
    pub closed spec fn trimmed(&self) -> bool {
        self.limbs@.len() > 0 ==> self.limbs@.last() != 0
    }

    /// What the count of limbs says about the value.
    pub proof fn lemma_size(&self)
        ensures
            self@ < limb_weight(self.limb_count()),
            self.trimmed() && self.limb_count() > 0 ==> self@ >= limb_weight(
                (self.limb_count() - 1) as nat,
            ),
    {
        lemma_value_bound(self.limbs@);
        if self.trimmed() && self.limb_count() > 0 {
            lemma_value_top(self.limbs@);
        }
    }

    /// The power of two `2^(32 n)`.
    pub fn limb_power(n: usize) -> (r: BigNat)
        requires
            n < usize::MAX,
        ensures
            r@ == limb_weight(n as nat),
            r.limb_count() == n + 1,
            r.trimmed(),
    {
        let mut limbs: Vec<u32> = Vec::new();
        let mut i: usize = 0;
        while i < n
            invariant
                i <= n,
                limbs@.len() == i,
                limbs_value(limbs@) == 0,
            decreases n - i,
        {
            proof {
                lemma_value_concat(limbs@, seq![0u32]);
                lemma_value_single(0u32);
                assert(limb_weight(limbs@.len()) * 0 == 0) by (nonlinear_arith);
                assert(limbs@.push(0u32) =~= limbs@ + seq![0u32]);
            }
            limbs.push(0);
            i = i + 1;
        }
        proof {
            lemma_value_concat(limbs@, seq![1u32]);
            lemma_value_single(1u32);
            assert(limb_weight(limbs@.len()) * 1 == limb_weight(limbs@.len())) by (nonlinear_arith);
            assert(limbs@.push(1u32) =~= limbs@ + seq![1u32]);
        }
        limbs.push(1);
        BigNat { limbs }
    }

    /// How many limbs are kept.
    pub fn len(&self) -> (r: usize)
        ensures
            r == self.limb_count(),
    {
        self.limbs.len()
    }

    /// Multiplies by a number of one limb.
    pub fn mul_small(&mut self, m: u32)
        ensures
            final(self)@ == old(self)@ * m,
            old(self).limb_count() <= final(self).limb_count() <= old(self).limb_count() + 1,
    {
        let ghost orig = self.limbs@;
        let n = self.limbs.len();
        let mut carry: u64 = 0;
        let mut i: usize = 0;
        proof {
            lemma_limb_weight_step(0);
            assert(orig.take(0) =~= Seq::<u32>::empty());
            assert(orig.skip(0) =~= orig);
            assert(m * limbs_value(orig.take(0)) == 0) by (nonlinear_arith)
                requires
                    limbs_value(orig.take(0)) == 0,
            ;
        }
        while i < n
            invariant
                i <= n,
                n == orig.len(),
                self.limbs@.len() == n,
                self.limbs@.skip(i as int) == orig.skip(i as int),
                limbs_value(self.limbs@.take(i as int)) + carry * limb_weight(i as nat) == m
                    * limbs_value(orig.take(i as int)),
                carry < LIMB_BASE,
            decreases n - i,
        {
            let ghost before = self.limbs@;
            let limb = self.limbs[i];
            assert(limb == orig[i as int]) by {
                assert(before.skip(i as int)[0] == orig.skip(i as int)[0]);
            }
            assert(limb as u64 * m as u64 + carry < LIMB_BASE * LIMB_BASE) by (nonlinear_arith)
                requires
                    limb < LIMB_BASE,
                    m < LIMB_BASE,
                    carry < LIMB_BASE,
            ;
            let x: u64 = limb as u64 * m as u64 + carry;
            let low: u32 = (x % LIMB_BASE) as u32;
            let high: u64 = x / LIMB_BASE;
            self.limbs.set(i, low);
            proof {
                let after = self.limbs@;
                let w = limb_weight(i as nat);
                assert(after.take(i as int) =~= before.take(i as int));
                assert(after.take(i + 1) =~= after.take(i as int) + seq![low]);
                assert(orig.take(i + 1) =~= orig.take(i as int) + seq![limb]);
                assert(after.skip(i + 1) =~= before.skip(i as int).drop_first());
                assert(orig.skip(i + 1) =~= orig.skip(i as int).drop_first());
                lemma_value_concat(after.take(i as int), seq![low]);
                lemma_value_concat(orig.take(i as int), seq![limb]);
                lemma_value_single(low);
                lemma_value_single(limb);
                lemma_limb_weight_step(i as nat);
                let va = limbs_value(after.take(i as int));
                let vo = limbs_value(orig.take(i as int));
                assert(va + w * low + high * (LIMB_BASE * w) == m * (vo + w * limb))
                    by (nonlinear_arith)
                    requires
                        va + carry * w == m * vo,
                        x == limb * m + carry,
                        x == high * LIMB_BASE + low,
                ;
            }
            carry = high;
            i = i + 1;
        }
        proof {
            assert(self.limbs@.take(n as int) =~= self.limbs@);
            assert(orig.take(n as int) =~= orig);
        }
        if carry != 0 {
            proof {
                lemma_value_concat(self.limbs@, seq![carry as u32]);
                lemma_value_single(carry as u32);
                assert(self.limbs@.push(carry as u32) =~= self.limbs@ + seq![carry as u32]);
                assert(limb_weight(n as nat) * carry == carry * limb_weight(n as nat))
                    by (nonlinear_arith);
            }
            self.limbs.push(carry as u32);
        }
        proof {
            assert(m * limbs_value(orig) == limbs_value(orig) * m) by (nonlinear_arith);
        }
    }

    /// Divides by a number of one limb, the remainder discarded.
    pub fn div_small(&mut self, d: u32)
        requires
            d > 0,
        ensures
            final(self)@ == old(self)@ / (d as nat),
            final(self).limb_count() == old(self).limb_count(),
    {
        let ghost orig = self.limbs@;
        let n = self.limbs.len();
        let mut rem: u64 = 0;
        let mut i: usize = n;
        proof {
            assert(orig.skip(n as int) =~= Seq::<u32>::empty());
            assert(d * limbs_value(orig.skip(n as int)) == 0) by (nonlinear_arith)
                requires
                    limbs_value(orig.skip(n as int)) == 0,
            ;
        }
        while i > 0
            invariant
                i <= n,
                n == orig.len(),
                self.limbs@.len() == n,
                self.limbs@.take(i as int) == orig.take(i as int),
                limbs_value(orig.skip(i as int)) == d * limbs_value(self.limbs@.skip(i as int))
                    + rem,
                rem < d,
            decreases i,
        {
            i = i - 1;
            let ghost before = self.limbs@;
            let limb = self.limbs[i];
            assert(limb == orig[i as int]) by {
                assert(before.take(i + 1)[i as int] == orig.take(i + 1)[i as int]);
            }
            assert(rem * LIMB_BASE + limb < d * LIMB_BASE) by (nonlinear_arith)
                requires
                    rem < d,
                    limb < LIMB_BASE,
            ;
            let x: u64 = rem * LIMB_BASE + limb as u64;
            let q: u64 = x / d as u64;
            let r: u64 = x % d as u64;
            assert(q < LIMB_BASE) by (nonlinear_arith)
                requires
                    x < d * LIMB_BASE,
                    q == x / (d as u64),
                    d > 0,
            ;
            self.limbs.set(i, q as u32);
            proof {
                let after = self.limbs@;
                assert(x == q * d + r) by (nonlinear_arith)
                    requires
                        q == x / (d as u64),
                        r == x % (d as u64),
                        d > 0,
                ;
                assert(after.take(i as int) =~= before.take(i + 1).drop_last());
                assert(orig.take(i as int) =~= orig.take(i + 1).drop_last());
                assert(after.skip(i as int).drop_first() =~= before.skip(i + 1));
                assert(orig.skip(i as int).drop_first() =~= orig.skip(i + 1));
                let vo = limbs_value(orig.skip(i + 1));
                let vb = limbs_value(before.skip(i + 1));
                assert(limb + LIMB_BASE * vo == d * (q + LIMB_BASE * vb) + r) by (nonlinear_arith)
                    requires
                        vo == d * vb + rem,
                        x == rem * LIMB_BASE + limb,
                        x == q * d + r,
                ;
            }
            rem = r;
        }
        proof {
            assert(self.limbs@.skip(0) =~= self.limbs@);
            assert(orig.skip(0) =~= orig);
            lemma_fundamental_div_mod_converse(
                limbs_value(orig) as int,
                d as int,
                limbs_value(self.limbs@) as int,
                rem as int,
            );
        }
    }

    /// Removes the zeros on top.
    pub fn trim(&mut self)
        ensures
            final(self)@ == old(self)@,
            final(self).trimmed(),
            final(self).limb_count() <= old(self).limb_count(),
    {
        while self.limbs.len() > 0 && self.limbs[self.limbs.len() - 1] == 0
            invariant
                limbs_value(self.limbs@) == limbs_value(old(self).limbs@),
                self.limbs@.len() <= old(self).limbs@.len(),
            decreases self.limbs@.len(),
        {
            proof {
                lemma_value_drop_zero(self.limbs@);
            }
            self.limbs.pop();
        }
    }

    /// Divides by `2^32`, the remainder discarded: the lowest limb leaves.
    pub fn drop_low_limb(&mut self)
        requires
            old(self).limb_count() > 0,
        ensures
            final(self)@ == old(self)@ / (LIMB_BASE as nat),
            final(self).limb_count() == old(self).limb_count() - 1,
            old(self).trimmed() ==> final(self).trimmed(),
    {
        let ghost orig = self.limbs@;
        let low = self.limbs.remove(0);
        proof {
            assert(self.limbs@ =~= orig.drop_first());
            lemma_fundamental_div_mod_converse(
                limbs_value(orig) as int,
                LIMB_BASE as int,
                limbs_value(self.limbs@) as int,
                low as int,
            );
            if orig.len() > 1 {
                assert(self.limbs@.last() == orig.last());
            }
        }
    }

    /// The value as a `u128`, where four limbs hold it.
    pub fn to_u128(&self) -> (r: u128)
        requires
            self.limb_count() <= 4,
        ensures
            r == self@,
    {
        let n = self.limbs.len();
        let mut acc: u128 = 0;
        let mut i: usize = n;
        proof {
            assert(self.limbs@.skip(n as int) =~= Seq::<u32>::empty());
            lemma_limb_weight_step(0);
            lemma_limb_weight_step(1);
            lemma_limb_weight_step(2);
            lemma_limb_weight_step(3);
        }
        while i > 0
            invariant
                i <= n <= 4,
                n == self.limbs@.len(),
                acc == limbs_value(self.limbs@.skip(i as int)),
                acc < limb_weight((n - i) as nat),
                limb_weight(0) == 1,
                limb_weight(1) == 0x1_0000_0000,
                limb_weight(2) == 0x1_0000_0000_0000_0000,
                limb_weight(3) == 0x1_0000_0000_0000_0000_0000_0000,
                limb_weight(4) == 0x1_0000_0000_0000_0000_0000_0000_0000_0000,
            decreases i,
        {
            i = i - 1;
            let limb = self.limbs[i];
            proof {
                let k = (n - i - 1) as nat;
                assert(self.limbs@.skip(i as int).drop_first() =~= self.limbs@.skip(i + 1));
                assert(self.limbs@.skip(i as int)[0] == limb);
                lemma_limb_weight_step(k);
                assert(k == 0 || k == 1 || k == 2 || k == 3);
                let w = limb_weight(k);
                assert(acc * LIMB_BASE + limb < LIMB_BASE * w) by (nonlinear_arith)
                    requires
                        acc < w,
                        limb < LIMB_BASE,
                ;
            }
            acc = acc * (LIMB_BASE as u128) + limb as u128;
        }
        proof {
            assert(self.limbs@.skip(0) =~= self.limbs@);
        }
        acc
    }
}

} // verus!
