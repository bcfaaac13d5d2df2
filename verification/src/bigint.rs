//! Normalized non-negative big integers: a vector of 64-bit limbs, least
//! significant first, with no most-significant zero limb.
use vstd::prelude::*;
use vstd::arithmetic::mul::*;
use vstd::arithmetic::power2::*;
use vstd::arithmetic::div_mod::*;
use vstd::bits::{lemma_u64_shr_is_div, lemma_u64_shl_is_mul};
use vstd::std_specs::bits::u64_leading_zeros;
use std::cmp::Ordering;
use vstd::arithmetic::power::pow;
use vstd::string::StringExecFns;
use crate::digits::{digits, append_digits, append_padded, lemma_digits_split};
use crate::limbs::{
    base, bit_len, bpow, is_normalized, lemma_bit_len_bounds, lemma_bit_len_unique, lemma_bpow_pos,
    lemma_bpow_pow2, lemma_fundamental_div_mod_converse_nat, lemma_value_bound,
    lemma_value_drop_zero, lemma_value_lower, lemma_value_push, limbs_value, digit, prefix_value,
    lemma_prefix_value, lemma_split_u128, lemma_carry_step, lemma_normalized_by_value, lemma_bpow_mono, lemma_borrow_step,
    lemma_mul_acc_step, lemma_value_update, lemma_shr_limb, lemma_mod_pow2_low_limb,
    lemma_base_split, lemma_value_split, lemma_value_lt_at, lemma_value_skip_step, lemma_pow2_increases, lemma_value_take_step, zeros, lemma_bpow_add,
};

verus! {

/// One limb.
pub type Limb = u64;

/// The number of bits in one limb.
pub const LIMB_BITS: usize = 64;

/// A non-negative integer of any size.
#[derive(Debug, Clone, PartialEq, Eq)]
pub struct Integer {
    limbs: Vec<Limb>,
}

impl View for Integer {
    type V = nat;

    /// The number this integer denotes.
    closed spec fn view(&self) -> nat {
        limbs_value(self.limbs@)
    }
}

/// `64 - leading_zeros(x)` counts the binary digits of `x`.
proof fn lemma_leading_zeros_bit_len(x: u64)
    ensures
        64 - u64_leading_zeros(x) == bit_len(x as nat),
    decreases x,
{
    reveal(u64_leading_zeros);
    if x != 0 {
        lemma_leading_zeros_bit_len(x / 2);
    }
}

impl Integer {
    /// Well-formedness: no most-significant zero limb, so each value has one
    /// representation.
    pub closed spec fn wf(&self) -> bool {
        is_normalized(self.limbs@)
    }

    /// The number of limbs.
    pub closed spec fn limb_count(&self) -> nat {
        self.limbs@.len()
    }

    proof fn lemma_wf_len(&self)
        requires
            self.wf(),
        ensures
            self@ == 0 <==> self.limbs@.len() == 0,
            self.limbs@.len() > 0 ==> self@ >= bpow((self.limbs@.len() - 1) as nat),
            self@ < bpow(self.limbs@.len()),
    {
        lemma_value_bound(self.limbs@);
        if self.limbs@.len() > 0 {
            lemma_value_lower(self.limbs@);
            lemma_bpow_pos((self.limbs@.len() - 1) as nat);
        }
    }

    pub fn zero() -> (r: Self)
        ensures
            r.wf(),
            r@ == 0,
    {
        Self { limbs: Vec::new() }
    }

    pub fn one() -> (r: Self)
        ensures
            r.wf(),
            r@ == 1,
    {
        Self::from_u64(1)
    }

    /// The integer with value `n`.
    pub fn from_u64(n: u64) -> (r: Self)
        ensures
            r.wf(),
            r@ == n,
    {
        if n == 0 {
            Self::zero()
        } else {
            let mut limbs = Vec::new();
            limbs.push(n);
            proof {
                assert(limbs@.skip(1) =~= Seq::<u64>::empty());
                assert(limbs_value(limbs@.skip(1)) == 0);
                assert(limbs_value(limbs@) == limbs@[0] + base() * limbs_value(limbs@.skip(1)));
                assert(limbs_value(limbs@) == n);
            }
            Self { limbs }
        }
    }

    pub fn is_zero(&self) -> (b: bool)
        requires
            self.wf(),
        ensures
            b == (self@ == 0),
    {
        proof {
            self.lemma_wf_len();
        }
        self.limbs.len() == 0
    }

    /// The least significant limb: the value modulo 2^64.
    pub fn to_u64(&self) -> (r: u64)
        ensures
            r == self@ % base(),
    {
        proof {
            if self.limbs@.len() > 0 {
                lemma_fundamental_div_mod_converse_nat(
                    self@,
                    self.limbs@[0] as nat,
                    limbs_value(self.limbs@.skip(1)),
                );
            } else {
                assert(self@ == 0);
            }
        }
        if self.limbs.len() == 0 {
            0
        } else {
            self.limbs[0]
        }
    }

    /// A copy with the same limbs.
    pub fn duplicate(&self) -> (r: Self)
        ensures
            r@ == self@,
            r.wf() == self.wf(),
    {
        let mut limbs: Vec<Limb> = Vec::new();
        let mut i: usize = 0;
        while i < self.limbs.len()
            invariant
                i <= self.limbs.len(),
                limbs@ == self.limbs@.take(i as int),
            decreases self.limbs.len() - i,
        {
            limbs.push(self.limbs[i]);
            i += 1;
            proof {
                assert(limbs@ =~= self.limbs@.take(i as int));
            }
        }
        proof {
            assert(limbs@ =~= self.limbs@);
        }
        Self { limbs }
    }

    /// The number of binary digits of the value.
    pub fn bits(&self) -> (b: usize)
        requires
            self.wf(),
            bit_len(self@) <= usize::MAX,
        ensures
            b == bit_len(self@),
    {
        let n = self.limbs.len();
        if n == 0 {
            proof {
                assert(self@ == 0);
            }
            return 0;
        }
        let top = self.limbs[n - 1];
        let lz = top.leading_zeros();
        proof {
            lemma_leading_zeros_bit_len(top);
            self.lemma_bits_value(top);
        }
        (n - 1) * LIMB_BITS + (LIMB_BITS - lz as usize)
    }

    proof fn lemma_bits_value(&self, top: u64)
        requires
            self.wf(),
            self.limbs@.len() > 0,
            top == self.limbs@.last(),
        ensures
            bit_len(self@) == 64 * (self.limbs@.len() - 1) + bit_len(top as nat),
    {
        let s = self.limbs@;
        let n = (s.len() - 1) as nat;
        let low = s.take(n as int);
        assert(s =~= low.push(top));
        lemma_value_push(low, top);
        lemma_value_bound(low);
        lemma_bpow_pow2(n);
        let w = pow2(64 * n);
        let k = bit_len(top as nat);
        lemma_bit_len_bounds(top as nat);
        // self@ == low + top * w, with low < w and 2^(k-1) <= top < 2^k.
        lemma_pow2_adds(64 * n, k);
        lemma_pow2_adds(64 * n, (k - 1) as nat);
        lemma_mul_inequality(pow2((k - 1) as nat) as int, top as int, w as int);
        lemma_mul_inequality(top + 1int, pow2(k) as int, w as int);
        lemma_mul_is_commutative(pow2(k) as int, w as int);
        lemma_mul_is_commutative(pow2((k - 1) as nat) as int, w as int);
        lemma_mul_is_commutative(top as int, w as int);
        lemma_mul_is_distributive_add(w as int, top as int, 1int);
        lemma_bit_len_unique(self@, 64 * n + k);
    }

    /// Drop most-significant zero limbs.
    fn normalize(&mut self)
        ensures
            final(self).wf(),
            final(self)@ == old(self)@,
    {
        while self.limbs.len() > 0 && self.limbs[self.limbs.len() - 1] == 0
            invariant
                limbs_value(self.limbs@) == limbs_value(old(self).limbs@),
            decreases self.limbs.len(),
        {
            proof {
                lemma_value_drop_zero(self.limbs@);
            }
            self.limbs.pop();
        }
    }

    /// The sum of two integers.
    #[verifier::spinoff_prover]
    pub fn add_ref(&self, rhs: &Self) -> (r: Self)
        requires
            self.wf(),
            rhs.wf(),
        ensures
            r.wf(),
            r@ == self@ + rhs@,
    {
        let la = self.limbs.len();
        let lb = rhs.limbs.len();
        let len = if la >= lb { la } else { lb };
        let mut out: Vec<Limb> = Vec::new();
        let mut carry: u128 = 0;
        let mut i: usize = 0;
        while i < len
            invariant
                i <= len,
                len == if la >= lb { la } else { lb },
                la == self.limbs@.len(),
                lb == rhs.limbs@.len(),
                out@.len() == i,
                carry <= 1,
                limbs_value(out@) + carry * bpow(i as nat) == prefix_value(self.limbs@, i as nat)
                    + prefix_value(rhs.limbs@, i as nat),
            decreases len - i,
        {
            let a: u128 = if i < la { self.limbs[i] as u128 } else { 0 };
            let b: u128 = if i < lb { rhs.limbs[i] as u128 } else { 0 };
            let s = a + b + carry;
            proof {
                lemma_split_u128(s);
                lemma_value_push(out@, s as u64);
                assert(a == digit(self.limbs@, i as int));
                assert(b == digit(rhs.limbs@, i as int));
                assert(bpow((i + 1) as nat) == base() * bpow(i as nat));
                lemma_carry_step(
                    limbs_value(out@) as int,
                    carry as int,
                    bpow(i as nat) as int,
                    s as int,
                    (s as u64) as int,
                    (s >> 64u128) as int,
                    (prefix_value(self.limbs@, i as nat) + prefix_value(rhs.limbs@, i as nat)) as int,
                    a + b,
                );
                assert(s >> 64u128 <= 1) by (bit_vector)
                    requires
                        s <= 0x1_ffff_ffff_ffff_ffffu128,
                ;
                lemma_mul_is_distributive_add(bpow(i as nat) as int, a as int, b as int);
                lemma_mul_is_commutative(bpow(i as nat) as int, a as int);
                lemma_mul_is_commutative(bpow(i as nat) as int, b as int);
                lemma_mul_is_commutative(bpow(i as nat) as int, (a + b) as int);
            }
            out.push(s as u64);
            carry = s >> 64;
            i += 1;
        }
        proof {
            lemma_prefix_value(self.limbs@, len as nat);
            lemma_prefix_value(rhs.limbs@, len as nat);
        }
        if carry != 0 {
            proof {
                lemma_value_push(out@, carry as u64);
            }
            out.push(carry as u64);
        } else if len > 0 {
            proof {
                let big = if la >= lb { self } else { rhs };
                big.lemma_wf_len();
                lemma_normalized_by_value(out@);
            }
        }
        Self { limbs: out }
    }

    /// A wf integer has no more limbs than another of at least its value.
    proof fn lemma_len_le(&self, other: &Self)
        requires
            self.wf(),
            other.wf(),
            self@ <= other@,
        ensures
            self.limbs@.len() <= other.limbs@.len(),
    {
        self.lemma_wf_len();
        other.lemma_wf_len();
        if self.limbs@.len() > other.limbs@.len() {
            lemma_bpow_mono(other.limbs@.len(), (self.limbs@.len() - 1) as nat);
        }
    }

    /// The difference of two integers; the subtrahend must not exceed the minuend.
    #[verifier::spinoff_prover]
    pub fn sub_ref(&self, rhs: &Self) -> (r: Self)
        requires
            self.wf(),
            rhs.wf(),
            rhs@ <= self@,
        ensures
            r.wf(),
            r@ == self@ - rhs@,
    {
        proof {
            rhs.lemma_len_le(self);
        }
        let la = self.limbs.len();
        let lb = rhs.limbs.len();
        let mut out: Vec<Limb> = Vec::new();
        let mut borrow: u64 = 0;
        let mut i: usize = 0;
        while i < la
            invariant
                i <= la,
                lb <= la,
                la == self.limbs@.len(),
                lb == rhs.limbs@.len(),
                out@.len() == i,
                borrow <= 1,
                limbs_value(out@) + prefix_value(rhs.limbs@, i as nat) == prefix_value(
                    self.limbs@,
                    i as nat,
                ) + borrow * bpow(i as nat),
            decreases la - i,
        {
            let a = self.limbs[i] as u128;
            let b: u128 = if i < lb { rhs.limbs[i] as u128 } else { 0 };
            let bb = b + borrow as u128;
            let d: u64;
            let next: u64;
            if a >= bb {
                d = (a - bb) as u64;
                next = 0;
            } else {
                d = (a + 0x1_0000_0000_0000_0000u128 - bb) as u64;
                next = 1;
            }
            proof {
                lemma_value_push(out@, d);
                assert(a == digit(self.limbs@, i as int));
                assert(b == digit(rhs.limbs@, i as int));
                assert(bpow((i + 1) as nat) == base() * bpow(i as nat));
                lemma_borrow_step(
                    limbs_value(out@) as int,
                    prefix_value(rhs.limbs@, i as nat) as int,
                    prefix_value(self.limbs@, i as nat) as int,
                    borrow as int,
                    bpow(i as nat) as int,
                    d as int,
                    a as int,
                    b as int,
                    next as int,
                );
                lemma_mul_is_commutative(bpow(i as nat) as int, d as int);
                lemma_mul_is_commutative(bpow(i as nat) as int, a as int);
                lemma_mul_is_commutative(bpow(i as nat) as int, b as int);
            }
            out.push(d);
            borrow = next;
            i += 1;
        }
        proof {
            lemma_prefix_value(self.limbs@, la as nat);
            lemma_prefix_value(rhs.limbs@, la as nat);
            lemma_value_bound(out@);
            if borrow == 1 {
                assert(false);
            }
        }
        let mut result = Self { limbs: out };
        result.normalize();
        result
    }

    /// The limb count is the bit length rounded up to whole limbs.
    pub proof fn lemma_limb_count(&self)
        requires
            self.wf(),
        ensures
            self.limb_count() == 0 <==> self@ == 0,
            self.limb_count() > 0 ==> 64 * (self.limb_count() - 1) < bit_len(self@),
            bit_len(self@) <= 64 * self.limb_count(),
    {
        self.lemma_wf_len();
        if self.limbs@.len() > 0 {
            self.lemma_bits_value(self.limbs@.last());
            lemma_bit_len_bounds(self.limbs@.last() as nat);
            assert(bit_len(self.limbs@.last() as nat) <= 64) by {
                lemma2_to64_rest();
                if bit_len(self.limbs@.last() as nat) > 64 {
                    crate::limbs::lemma_pow2_increases(64, (bit_len(self.limbs@.last() as nat) - 1) as nat);
                }
            }
        } else {
            assert(bit_len(0) == 0);
        }
    }

    /// The product of two integers.
    #[verifier::spinoff_prover]
    pub fn mul_ref(&self, rhs: &Self) -> (r: Self)
        requires
            self.wf(),
            rhs.wf(),
            self.limb_count() + rhs.limb_count() <= usize::MAX,
        ensures
            r.wf(),
            r@ == self@ * rhs@,
    {
        if self.is_zero() || rhs.is_zero() {
            return Self::zero();
        }
        let la = self.limbs.len();
        let lb = rhs.limbs.len();
        let mut out = zeros(la + lb);
        let ghost bv = rhs@;
        let mut i: usize = 0;
        proof {
            assert(self.limbs@.take(0) =~= Seq::<u64>::empty());
            assert(limbs_value(self.limbs@.take(0)) == 0);
        }
        while i < la
            invariant
                i <= la,
                la == self.limbs@.len(),
                lb == rhs.limbs@.len(),
                lb > 0,
                la + lb <= usize::MAX,
                bv > 0,
                bv == limbs_value(rhs.limbs@),
                out@.len() == la + lb,
                limbs_value(out@) == limbs_value(self.limbs@.take(i as int)) * bv,
            decreases la - i,
        {
            let a = self.limbs[i];
            let ghost x = limbs_value(self.limbs@.take(i as int)) * bv;
            let ghost bi = bpow(i as nat);
            let mut carry: u128 = 0;
            let mut j: usize = 0;
            proof {
                assert(rhs.limbs@.take(0) =~= Seq::<u64>::empty());
                assert(limbs_value(rhs.limbs@.take(0)) == 0);
                assert(bpow((i + 0) as nat) == bpow(i as nat));
            }
            while j < lb
                invariant
                    i < la,
                    j <= lb,
                    la + lb <= usize::MAX,
                    la == self.limbs@.len(),
                    lb == rhs.limbs@.len(),
                    a == self.limbs@[i as int],
                    bi == bpow(i as nat),
                    out@.len() == la + lb,
                    carry < base(),
                    limbs_value(out@) + carry * bpow((i + j) as nat) == x + a * limbs_value(
                        rhs.limbs@.take(j as int),
                    ) * bi,
                decreases lb - j,
            {
                let k = i + j;
                let b = rhs.limbs[j];
                proof {
                    assert((a as int) * (b as int) <= 0xffff_ffff_ffff_fffe_0000_0000_0000_0001) by (nonlinear_arith)
                        requires
                            a <= 0xffff_ffff_ffff_ffff,
                            b <= 0xffff_ffff_ffff_ffff,
                    ;
                }
                let v = out[k] as u128 + (a as u128) * (b as u128) + carry;
                let ghost vo = limbs_value(out@);
                let ghost ok = out@[k as int];
                proof {
                    lemma_split_u128(v);
                    lemma_value_update(out@, k as int, v as u64);
                    lemma_value_take_step(rhs.limbs@, j as int);
                    lemma_bpow_add(i as nat, j as nat);
                    assert(bpow((k + 1) as nat) == base() * bpow(k as nat));
                    lemma_mul_acc_step(
                        vo as int,
                        limbs_value(out@.update(k as int, v as u64)) as int,
                        ok as int,
                        (v as u64) as int,
                        carry as int,
                        (v >> 64u128) as int,
                        bpow(k as nat) as int,
                        v as int,
                        a as int,
                        b as int,
                        x as int,
                        limbs_value(rhs.limbs@.take(j as int)) as int,
                        bi as int,
                        bpow(j as nat) as int,
                    );
                    assert(v >> 64u128 <= 0xffff_ffff_ffff_ffff) by (bit_vector);
                }
                out.set(k, v as u64);
                carry = v >> 64;
                j += 1;
            }
            // Propagate the final carry of this row.
            let ghost t = limbs_value(self.limbs@.take((i + 1) as int)) * bv;
            proof {
                lemma_value_take_step(self.limbs@, i as int);
                assert(t == x + a * bv * bi) by {
                    lemma_mul_is_distributive_add(
                        bv as int,
                        limbs_value(self.limbs@.take(i as int)) as int,
                        self.limbs@[i as int] * bpow(i as nat),
                    );
                    lemma_mul_is_commutative(bv as int, limbs_value(self.limbs@.take(i as int)) as int);
                    lemma_mul_is_commutative(bv as int, limbs_value(self.limbs@.take((i + 1) as int)) as int);
                    lemma_mul_is_associative(a as int, bi as int, bv as int);
                    lemma_mul_is_associative(a as int, bv as int, bi as int);
                    lemma_mul_is_commutative(bi as int, bv as int);
                    lemma_mul_is_commutative(bv as int, (a * bi) as int);
                }
                assert(rhs.limbs@.take(lb as int) =~= rhs.limbs@);
                // The partial product stays below the weight of the whole vector.
                lemma_value_bound(self.limbs@.take((i + 1) as int));
                lemma_value_bound(rhs.limbs@);
                assert(self.limbs@.take((i + 1) as int).len() == i + 1);
                crate::limbs::lemma_mul_bound(
                    limbs_value(self.limbs@.take((i + 1) as int)),
                    bv,
                    (i + 1) as nat,
                    lb as nat,
                );
                lemma_bpow_mono((i + 1 + lb) as nat, (la + lb) as nat);
                assert(t < bpow(out@.len()));
            }
            let mut k = i + lb;
            while carry != 0
                invariant
                    k <= out@.len(),
                    out@.len() == la + lb,
                    carry < base(),
                    t < bpow(out@.len()),
                    limbs_value(out@) + carry * bpow(k as nat) == t,
                decreases out@.len() - k,
            {
                if k == out.len() {
                    proof {
                        lemma_bpow_pos(k as nat);
                        lemma_mul_increases(carry as int, bpow(k as nat) as int);
                    }
                    out.push(0);
                    assert(false);
                }
                let v = out[k] as u128 + carry;
                proof {
                    lemma_split_u128(v);
                    lemma_value_update(out@, k as int, v as u64);
                    assert(bpow((k + 1) as nat) == base() * bpow(k as nat));
                    crate::limbs::lemma_carry_step(
                        limbs_value(out@) as int - out@[k as int] * bpow(k as nat),
                        0,
                        bpow(k as nat) as int,
                        v as int,
                        (v as u64) as int,
                        (v >> 64u128) as int,
                        limbs_value(out@) as int - out@[k as int] * bpow(k as nat),
                        v as int,
                    );
                    lemma_mul_is_distributive_add(bpow(k as nat) as int, out@[k as int] as int, carry as int);
                    lemma_mul_is_commutative(bpow(k as nat) as int, out@[k as int] as int);
                    lemma_mul_is_commutative(bpow(k as nat) as int, carry as int);
                    lemma_mul_is_commutative(bpow(k as nat) as int, v as int);
                    lemma_mul_is_commutative(bpow(k as nat) as int, (v as u64) as int);
                    assert(v >> 64u128 <= 0xffff_ffff_ffff_ffff) by (bit_vector);
                }
                out.set(k, v as u64);
                carry = v >> 64;
                k += 1;
            }
            i += 1;
        }
        proof {
            assert(self.limbs@.take(la as int) =~= self.limbs@);
        }
        let mut result = Self { limbs: out };
        result.normalize();
        result
    }

    /// The quotient by `2^bits`.
    #[verifier::spinoff_prover]
    pub fn shr_ref(&self, bits: usize) -> (r: Self)
        requires
            self.wf(),
        ensures
            r.wf(),
            r@ == self@ / pow2(bits as nat),
    {
        let limb_shift = bits / LIMB_BITS;
        let bit_shift = bits % LIMB_BITS;
        let len = self.limbs.len();
        proof {
            lemma_pow2_adds(64 * limb_shift as nat, bit_shift as nat);
            lemma_bpow_pow2(limb_shift as nat);
            lemma_pow2_pos(bit_shift as nat);
            lemma_bpow_pos(limb_shift as nat);
        }
        if limb_shift >= len {
            proof {
                lemma_value_bound(self.limbs@);
                lemma_bpow_mono(len as nat, limb_shift as nat);
                lemma_pow2_increases(64 * limb_shift as nat, bits as nat);
                lemma_basic_div(self@ as int, pow2(bits as nat) as int);
            }
            return Self::zero();
        }
        let ghost t = self.limbs@.skip(limb_shift as int);
        let ghost p = pow2(bit_shift as nat);
        let n = len - limb_shift;
        let mut out: Vec<Limb> = Vec::new();
        let mut j: usize = 0;
        proof {
            assert(t.skip(0) =~= t);
            assert(limbs_value(out@) == 0);
            assert(bpow(0) == 1);
        }
        while j < n
            invariant
                j <= n,
                n == t.len(),
                len == self.limbs@.len(),
                limb_shift + n == len,
                t == self.limbs@.skip(limb_shift as int),
                bit_shift < 64,
                p == pow2(bit_shift as nat),
                p > 0,
                out@.len() == j,
                limbs_value(t) / p == limbs_value(out@) + bpow(j as nat) * (limbs_value(t.skip(j as int)) / p),
            decreases n - j,
        {
            let tj = self.limbs[limb_shift + j];
            let tn: u64 = if j + 1 < n { self.limbs[limb_shift + j + 1] } else { 0 };
            let ghost v = limbs_value(t.skip(j + 1));
            proof {
                assert(t[j as int] == tj);
                lemma_value_skip_step(t, j as int);
                lemma_mod_pow2_low_limb(t.skip(j + 1), bit_shift as nat);
                assert(crate::limbs::digit(t.skip(j + 1), 0) == tn);
            }
            let r: u64;
            if bit_shift == 0 {
                r = tj;
                proof {
                    assert(p == 1) by {
                        lemma2_to64();
                    }
                    assert(limbs_value(t.skip(j as int)) / 1 == limbs_value(t.skip(j as int)));
                    assert(v / 1 == v);
                    assert(limbs_value(t.skip(j as int)) / p == tj + base() * (v / p));
                }
            } else {
                let sp = 1u64 << bit_shift as u64;
                let cp = 1u64 << (64 - bit_shift) as u64;
                proof {
                    vstd::bits::lemma_u64_pow2_no_overflow(bit_shift as nat);
                    vstd::bits::lemma_u64_pow2_no_overflow((64 - bit_shift) as nat);
                    lemma_u64_shl_is_mul(1, bit_shift as u64);
                    lemma_u64_shl_is_mul(1, (64 - bit_shift) as u64);
                    lemma_u64_shr_is_div(tj, bit_shift as u64);
                    lemma_base_split(bit_shift as nat);
                    lemma_mod_bound(tn as int, sp as int);
                    lemma_mul_inequality((tn % sp) as int, sp - 1, cp as int);
                    lemma_mul_is_distributive_sub(cp as int, sp as int, 1int);
                    lemma_mul_is_commutative(cp as int, sp as int);
                    lemma_mul_is_commutative(cp as int, sp - 1);
                    // tj / 2^k < 2^(64 - k)
                    lemma_multiply_divide_lt(tj as int, sp as int, cp as int);
                    lemma_shr_limb(tj as nat, tn as nat, v, bit_shift as nat);
                }
                r = (tj >> bit_shift as u64) + (tn % sp) * cp;
            }
            proof {
                lemma_value_push(out@, r);
                assert(bpow((j + 1) as nat) == base() * bpow(j as nat));
                lemma_mul_is_distributive_add(bpow(j as nat) as int, r as int, (base() * (v / p)) as int);
                lemma_mul_is_commutative(bpow(j as nat) as int, r as int);
                lemma_mul_is_associative(bpow(j as nat) as int, base() as int, (v / p) as int);
                lemma_mul_is_commutative(bpow(j as nat) as int, base() as int);
            }
            out.push(r);
            j += 1;
        }
        proof {
            assert(t.skip(n as int) =~= Seq::<u64>::empty());
            assert(limbs_value(t.skip(n as int)) == 0);
            lemma_value_split(self.limbs@, limb_shift as int);
            lemma_value_bound(self.limbs@.take(limb_shift as int));
            assert(self.limbs@.take(limb_shift as int).len() == limb_shift);
            assert(self@ == limbs_value(t) * bpow(limb_shift as nat) + limbs_value(
                self.limbs@.take(limb_shift as int),
            )) by {
                lemma_mul_is_commutative(limbs_value(t) as int, bpow(limb_shift as nat) as int);
            }
            lemma_fundamental_div_mod_converse(
                self@ as int,
                bpow(limb_shift as nat) as int,
                limbs_value(t) as int,
                limbs_value(self.limbs@.take(limb_shift as int)) as int,
            );
            lemma_div_denominator(self@ as int, bpow(limb_shift as nat) as int, p as int);
            assert(bits == 64 * limb_shift + bit_shift);
            assert(pow2(bits as nat) == bpow(limb_shift as nat) * p);
            assert(j == n);
            assert(limbs_value(t.skip(j as int)) == 0);
            lemma_div_of0(p as int);
            assert(limbs_value(t.skip(j as int)) / p == 0);
            assert(bpow(j as nat) * (limbs_value(t.skip(j as int)) / p) == 0) by {
                lemma_mul_by_zero_is_zero(bpow(j as nat) as int);
            }
            assert(limbs_value(out@) == limbs_value(t) / p);
            assert(limbs_value(t) == self@ / bpow(limb_shift as nat));
            assert(limbs_value(out@) == self@ / pow2(bits as nat));
        }
        let mut result = Self { limbs: out };
        result.normalize();
        result
    }

    /// Quotient and remainder by one nonzero limb.
    #[verifier::spinoff_prover]
    fn div_rem_limb(&self, d: u64) -> (res: (Self, u64))
        requires
            self.wf(),
            d != 0,
        ensures
            res.0.wf(),
            res.0@ == self@ / (d as nat),
            res.1 == self@ % (d as nat),
    {
        let len = self.limbs.len();
        let mut out = zeros(len);
        let mut rem: u128 = 0;
        let mut i: usize = len;
        proof {
            assert(self.limbs@.skip(len as int) =~= Seq::<u64>::empty());
            assert(out@.skip(len as int) =~= Seq::<u64>::empty());
            assert(limbs_value(self.limbs@.skip(len as int)) == 0);
            assert(limbs_value(out@.skip(len as int)) == 0);
        }
        while i > 0
            invariant
                i <= len,
                len == self.limbs@.len(),
                out@.len() == len,
                rem < d,
                limbs_value(self.limbs@.skip(i as int)) == d * limbs_value(out@.skip(i as int)) + rem,
            decreases i,
        {
            i -= 1;
            proof {
                assert(rem * base() + self.limbs@[i as int] < (d as int) * base()) by (nonlinear_arith)
                    requires
                        rem < d,
                        self.limbs@[i as int] < base(),
                ;
                assert((d as int) * base() <= 0xffff_ffff_ffff_ffff * 0x1_0000_0000_0000_0000) by (nonlinear_arith)
                    requires
                        d <= 0xffff_ffff_ffff_ffff,
                ;
            }
            let cur: u128 = rem * 0x1_0000_0000_0000_0000u128 + self.limbs[i] as u128;
            let q = cur / (d as u128);
            let r = cur % (d as u128);
            proof {
                lemma_fundamental_div_mod(cur as int, d as int);
                lemma_mod_bound(cur as int, d as int);
                lemma_multiply_divide_lt(cur as int, d as int, base() as int);
                let qq = limbs_value(out@.skip(i + 1));
                lemma_value_skip_step(self.limbs@, i as int);
                lemma_value_skip_step(out@.update(i as int, q as u64), i as int);
                assert(out@.update(i as int, q as u64).skip(i + 1) =~= out@.skip(i + 1));
                // s_i + B (d Q + rem) == d (q + B Q) + r
                assert(self.limbs@[i as int] + base() * ((d as int) * qq + rem) == (d as int) * (q + base() * qq) + r)
                    by (nonlinear_arith)
                    requires
                        cur == rem * base() + self.limbs@[i as int],
                        cur == (d as int) * q + r,
                ;
            }
            out.set(i, q as u64);
            rem = r;
        }
        proof {
            assert(self.limbs@.skip(0) =~= self.limbs@);
            assert(out@.skip(0) =~= out@);
            lemma_mul_is_commutative(d as int, limbs_value(out@) as int);
            lemma_fundamental_div_mod_converse(
                self@ as int,
                d as int,
                limbs_value(out@) as int,
                rem as int,
            );
        }
        let mut q = Self { limbs: out };
        q.normalize();
        (q, rem as u64)
    }

    /// The quotient by a nonzero `u64`.
    pub fn div_u64(&self, rhs: u64) -> (r: Self)
        requires
            self.wf(),
            rhs != 0,
        ensures
            r.wf(),
            r@ == self@ / (rhs as nat),
    {
        let (q, _) = self.div_rem_limb(rhs);
        q
    }

    /// Quotient and remainder by a nonzero `u32`.
    pub fn div_rem_u32(&self, rhs: u32) -> (res: (Self, u32))
        requires
            self.wf(),
            rhs != 0,
        ensures
            res.0.wf(),
            res.0@ == self@ / (rhs as nat),
            res.1 == self@ % (rhs as nat),
    {
        let (q, r) = self.div_rem_limb(rhs as u64);
        (q, r as u32)
    }

    /// The product by a `u64`.
    pub fn mul_u64(&self, rhs: u64) -> (r: Self)
        requires
            self.wf(),
            self.limb_count() < usize::MAX,
        ensures
            r.wf(),
            r@ == self@ * rhs,
    {
        let f = Self::from_u64(rhs);
        proof {
            f.lemma_wf_len();
            if rhs != 0 {
                lemma_value_bound(f.limbs@);
                if f.limbs@.len() > 1 {
                    lemma_value_lower(f.limbs@);
                    lemma_bpow_mono(1, (f.limbs@.len() - 1) as nat);
                }
            }
        }
        self.mul_ref(&f)
    }

    /// The product by `2^bits`.
    #[verifier::spinoff_prover]
    pub fn shl_ref(&self, bits: usize) -> (r: Self)
        requires
            self.wf(),
            self.limb_count() + bits / 64 < usize::MAX,
        ensures
            r.wf(),
            r@ == self@ * pow2(bits as nat),
    {
        if self.is_zero() {
            proof {
                lemma_mul_by_zero_is_zero(pow2(bits as nat) as int);
            }
            return Self::zero();
        }
        let limb_shift = bits / LIMB_BITS;
        let bit_shift = bits % LIMB_BITS;
        let len = self.limbs.len();
        let mut out = zeros(limb_shift + len + 1);
        proof {
            vstd::bits::lemma_u64_pow2_no_overflow(bit_shift as nat);
            lemma_u64_shl_is_mul(1, bit_shift as u64);
        }
        let sp: u128 = (1u64 << bit_shift as u64) as u128;
        let ghost bl = bpow(limb_shift as nat);
        let mut carry: u128 = 0;
        let mut i: usize = 0;
        proof {
            assert(bpow(0) == 1);
            lemma_bpow_add(limb_shift as nat, 0);
            assert(prefix_value(self.limbs@, 0) == 0);
        }
        while i < len
            invariant
                i <= len,
                len == self.limbs@.len(),
                out@.len() == limb_shift + len + 1,
                limb_shift + len + 1 <= usize::MAX,
                sp == pow2(bit_shift as nat),
                0 < sp < base(),
                bl == bpow(limb_shift as nat),
                carry < sp,
                forall|k: int| limb_shift + i <= k < out@.len() ==> out@[k] == 0,
                limbs_value(out@) + carry * bpow((limb_shift + i) as nat) == prefix_value(
                    self.limbs@,
                    i as nat,
                ) * sp * bl,
            decreases len - i,
        {
            let a = self.limbs[i];
            let k = i + limb_shift;
            proof {
                assert((a as int) * sp + carry < base() * sp) by (nonlinear_arith)
                    requires
                        a < base(),
                        carry < sp,
                ;
                assert(base() * sp <= base() * base()) by (nonlinear_arith)
                    requires
                        sp < base(),
                ;
            }
            let v: u128 = (a as u128) * sp + carry;
            proof {
                let w = bpow(k as nat);
                let pv = prefix_value(self.limbs@, i as nat);
                lemma_split_u128(v);
                lemma_value_update(out@, k as int, v as u64);
                assert(bpow((k + 1) as nat) == base() * w);
                crate::limbs::lemma_carry_step(
                    limbs_value(out@) as int,
                    carry as int,
                    w as int,
                    v as int,
                    (v as u64) as int,
                    (v >> 64u128) as int,
                    (pv * sp * bl) as int,
                    (a * sp) as int,
                );
                lemma_bpow_add(limb_shift as nat, i as nat);
                assert(prefix_value(self.limbs@, (i + 1) as nat) == pv + a * bpow(i as nat));
                assert((pv + a * bpow(i as nat)) * sp * bl == pv * sp * bl + (a * sp) * (bl * bpow(i as nat)))
                    by (nonlinear_arith);
                lemma_multiply_divide_lt(v as int, base() as int, sp as int);
            }
            out.set(k, v as u64);
            carry = v >> 64;
            i += 1;
        }
        proof {
            lemma_prefix_value(self.limbs@, len as nat);
        }
        if carry != 0 {
            proof {
                lemma_value_update(out@, (limb_shift + len) as int, carry as u64);
            }
            out.set(limb_shift + len, carry as u64);
        }
        proof {
            lemma_pow2_adds(64 * limb_shift as nat, bit_shift as nat);
            lemma_bpow_pow2(limb_shift as nat);
            assert(bits == 64 * limb_shift + bit_shift);
            assert(self@ * sp * bl == self@ * pow2(bits as nat)) by {
                lemma_mul_is_associative(self@ as int, sp as int, bl as int);
                lemma_mul_is_commutative(sp as int, bl as int);
            }
        }
        let mut result = Self { limbs: out };
        result.normalize();
        result
    }

    /// The limbs of `self` and `rhs` agree from position `i` up.
    closed spec fn agree_from(&self, rhs: &Self, i: usize) -> bool {
        self.limbs@.skip(i as int) == rhs.limbs@.skip(i as int)
    }

    proof fn lemma_shorter_is_smaller(&self, rhs: &Self)
        requires
            self.wf(),
            rhs.wf(),
            self.limbs@.len() < rhs.limbs@.len(),
        ensures
            self@ < rhs@,
    {
        self.lemma_wf_len();
        rhs.lemma_wf_len();
        lemma_bpow_mono(self.limbs@.len(), (rhs.limbs@.len() - 1) as nat);
    }

    proof fn lemma_agree_top(&self, rhs: &Self)
        requires
            self.limbs@.len() == rhs.limbs@.len(),
        ensures
            self.agree_from(rhs, self.limbs.len()),
    {
        assert(self.limbs@.skip(self.limbs@.len() as int) =~= rhs.limbs@.skip(self.limbs@.len() as int));
    }

    proof fn lemma_agree_step(&self, rhs: &Self, i: usize)
        requires
            self.limbs@.len() == rhs.limbs@.len(),
            i < self.limbs.len(),
            self.agree_from(rhs, (i + 1) as usize),
        ensures
            self.limbs@[i as int] < rhs.limbs@[i as int] ==> self@ < rhs@,
            self.limbs@[i as int] == rhs.limbs@[i as int] ==> self.agree_from(rhs, i),
    {
        if self.limbs@[i as int] < rhs.limbs@[i as int] {
            lemma_value_lt_at(self.limbs@, rhs.limbs@, i as int);
        }
        if self.limbs@[i as int] == rhs.limbs@[i as int] {
            assert(self.limbs@.skip(i as int) =~= rhs.limbs@.skip(i as int)) by {
                assert forall|k: int| 0 <= k < self.limbs@.skip(i as int).len() implies
                    self.limbs@.skip(i as int)[k] == rhs.limbs@.skip(i as int)[k] by {
                    if k > 0 {
                        assert(self.limbs@.skip(i as int)[k] == self.limbs@.skip(i + 1)[k - 1]);
                        assert(rhs.limbs@.skip(i as int)[k] == rhs.limbs@.skip(i + 1)[k - 1]);
                    }
                }
            }
        }
    }

    proof fn lemma_agree_all(&self, rhs: &Self)
        requires
            self.agree_from(rhs, 0),
        ensures
            self@ == rhs@,
    {
        assert(self.limbs@ =~= self.limbs@.skip(0));
        assert(rhs.limbs@ =~= rhs.limbs@.skip(0));
    }

    /// Three-way comparison of the values.
    pub fn cmp(&self, rhs: &Self) -> (o: Ordering)
        requires
            self.wf(),
            rhs.wf(),
        ensures
            o == Ordering::Less <==> self@ < rhs@,
            o == Ordering::Equal <==> self@ == rhs@,
            o == Ordering::Greater <==> self@ > rhs@,
    {
        let la = self.limbs.len();
        let lb = rhs.limbs.len();
        if la < lb {
            proof {
                self.lemma_shorter_is_smaller(rhs);
            }
            return Ordering::Less;
        }
        if la > lb {
            proof {
                rhs.lemma_shorter_is_smaller(self);
            }
            return Ordering::Greater;
        }
        let mut i: usize = la;
        proof {
            self.lemma_agree_top(rhs);
        }
        while i > 0
            invariant
                i <= la,
                la == self.limbs@.len(),
                la == rhs.limbs@.len(),
                self.agree_from(rhs, i),
            decreases i,
        {
            i -= 1;
            let a = self.limbs[i];
            let b = rhs.limbs[i];
            proof {
                self.lemma_agree_step(rhs, i);
                rhs.lemma_agree_step(self, i);
            }
            if a < b {
                return Ordering::Less;
            }
            if a > b {
                return Ordering::Greater;
            }
        }
        proof {
            self.lemma_agree_all(rhs);
        }
        Ordering::Equal
    }
}

/// The value of base-10^9 chunks, least significant first.
pub open spec fn chunks_value(p: Seq<u32>) -> nat
    decreases p.len(),
{
    if p.len() == 0 {
        0
    } else {
        (p[0] as nat) + 1_000_000_000 * chunks_value(p.skip(1))
    }
}

proof fn lemma_chunks_push(p: Seq<u32>, x: u32)
    ensures
        chunks_value(p.push(x)) == chunks_value(p) + x * pow(1_000_000_000, p.len()),
    decreases p.len(),
{
    reveal(pow);
    if p.len() == 0 {
        assert(p.push(x).skip(1) =~= Seq::<u32>::empty());
        assert(chunks_value(p.push(x).skip(1)) == 0);
        assert(pow(1_000_000_000, 0) == 1);
    } else {
        assert(p.push(x).skip(1) =~= p.skip(1).push(x));
        lemma_chunks_push(p.skip(1), x);
        let q = pow(1_000_000_000, (p.len() - 1) as nat);
        assert(pow(1_000_000_000, p.len()) == 1_000_000_000 * q);
        let c = chunks_value(p.skip(1));
        assert(1_000_000_000 * (c + x * q) == 1_000_000_000 * c + x * (1_000_000_000 * q)) by (nonlinear_arith);
    }
}

proof fn lemma_chunks_positive(p: Seq<u32>)
    requires
        p.len() > 0,
        p.last() > 0,
    ensures
        chunks_value(p) > 0,
    decreases p.len(),
{
    if p.len() > 1 {
        assert(p.skip(1).last() == p.last());
        lemma_chunks_positive(p.skip(1));
    }
}

proof fn lemma_pow_1e9()
    ensures
        pow(10, 9) == 1_000_000_000,
{
    reveal_with_fuel(pow, 10);
}

impl Integer {
    /// The decimal digits of the value.
    pub fn to_decimal_string(&self) -> (s: String)
        requires
            self.wf(),
        ensures
            s@ == digits(self@, 10),
    {
        if self.is_zero() {
            let mut s = String::new();
            append_digits(&mut s, 0, 10);
            return s;
        }
        let mut n = self.duplicate();
        let chunk = 1_000_000_000u32;
        let mut parts: Vec<u32> = Vec::new();
        proof {
            reveal(pow);
            assert(pow(1_000_000_000, 0) == 1);
            assert(chunks_value(parts@) == 0);
        }
        while !n.is_zero()
            invariant
                n.wf(),
                chunk == 1_000_000_000,
                self@ == chunks_value(parts@) + pow(1_000_000_000, parts@.len()) * n@,
                forall|k: int| 0 <= k < parts@.len() ==> parts@[k] < 1_000_000_000,
                parts@.len() > 0 ==> (n@ > 0 || parts@.last() > 0),
                pow(1_000_000_000, parts@.len()) > 0,
            decreases n@,
        {
            let (q, r) = n.div_rem_u32(chunk);
            proof {
                lemma_fundamental_div_mod(n@ as int, 1_000_000_000);
                lemma_mod_bound(n@ as int, 1_000_000_000);
                lemma_chunks_push(parts@, r);
                let w = pow(1_000_000_000, parts@.len());
                reveal(pow);
                assert(pow(1_000_000_000, parts@.len() + 1) == 1_000_000_000 * w);
                assert(w * n@ == r * w + (1_000_000_000 * w) * q@) by (nonlinear_arith)
                    requires
                        n@ == 1_000_000_000 * q@ + r,
                ;
                lemma_div_decreases(n@ as int, 1_000_000_000);
                lemma_mul_strictly_positive(1_000_000_000, w);
                if q@ == 0 {
                    lemma_small_div_converse(n@ as int, 1_000_000_000);
                }
            }
            parts.push(r);
            n = q;
        }
        let m = parts.len();
        proof {
            lemma_pow_1e9();
            lemma_mul_by_zero_is_zero(pow(1_000_000_000, parts@.len()));
            assert(parts@.skip((m - 1) as int).skip(1) =~= Seq::<u32>::empty());
            assert(chunks_value(parts@.skip((m - 1) as int).skip(1)) == 0);
        }
        let mut s = String::new();
        append_digits(&mut s, parts[m - 1] as u64, 10);
        let mut j: usize = m - 1;
        proof {
            assert(s@ =~= digits(chunks_value(parts@.skip(j as int)), 10));
        }
        while j > 0
            invariant
                j < m,
                m == parts@.len(),
                forall|k: int| 0 <= k < parts@.len() ==> parts@[k] < 1_000_000_000,
                parts@.last() > 0,
                pow(10, 9) == 1_000_000_000,
                s@ == digits(chunks_value(parts@.skip(j as int)), 10),
            decreases j,
        {
            j -= 1;
            proof {
                let a = chunks_value(parts@.skip(j + 1));
                assert(parts@.skip(j as int).skip(1) =~= parts@.skip(j + 1));
                assert(parts@.skip(j + 1).last() == parts@.last());
                lemma_chunks_positive(parts@.skip(j + 1));
                lemma_digits_split(a, parts@[j as int] as nat, 10, 9);
                lemma_mul_is_commutative(a as int, 1_000_000_000);
            }
            append_padded(&mut s, parts[j] as u64, 10, 9);
        }
        proof {
            assert(parts@.skip(0) =~= parts@);
        }
        s
    }
}

impl Integer {
    /// The `count` most significant bits of the value (all of it when it has
    /// no more than `count` bits).
    pub fn top_bits_u64(&self, count: usize) -> (r: u64)
        requires
            self.wf(),
            count <= 64,
            bit_len(self@) <= usize::MAX,
        ensures
            bit_len(self@) > count ==> r == self@ / pow2((bit_len(self@) - count) as nat),
            bit_len(self@) <= count ==> r == self@,
    {
        let bits = self.bits();
        let shifted = if bits > count {
            self.shr_ref(bits - count)
        } else {
            self.duplicate()
        };
        proof {
            lemma_bit_len_bounds(self@);
            lemma2_to64_rest();
            if bits > count {
                lemma_pow2_adds((bits - count) as nat, count as nat);
                lemma_pow2_pos((bits - count) as nat);
                lemma_multiply_divide_lt(self@ as int, pow2((bits - count) as nat) as int, pow2(count as nat) as int);
            } else {
                lemma_pow2_increases(bits as nat, count as nat);
            }
            lemma_pow2_increases(count as nat, 64);
            lemma_small_mod(shifted@, base());
        }
        shifted.to_u64()
    }
}

impl From<u64> for Integer {
    fn from(n: u64) -> (r: Self)
        ensures
            r.wf(),
            r@ == n,
    {
        Self::from_u64(n)
    }
}

impl vstd::std_specs::convert::FromSpecImpl<u64> for Integer {
    open spec fn obeys_from_spec() -> bool {
        false
    }

    open spec fn from_spec(v: u64) -> Self {
        arbitrary()
    }
}

impl Integer {
    /// A value below `2^k` has at most `k / 64 + 1` limbs.
    pub proof fn lemma_limb_count_below(&self, k: nat)
        requires
            self.wf(),
            self@ < pow2(k),
        ensures
            self.limb_count() <= k / 64 + 1,
    {
        self.lemma_limb_count();
        lemma_bit_len_bounds(self@);
        if bit_len(self@) > k {
            lemma_pow2_increases(k, (bit_len(self@) - 1) as nat);
        }
    }
}

impl Integer {
    /// The number of limbs.
    pub fn num_limbs(&self) -> (n: usize)
        ensures
            n == self.limb_count(),
    {
        self.limbs.len()
    }

    /// The integer denoted by `limbs`, least significant first; zero limbs at
    /// the top are dropped.
    pub fn from_limbs(limbs: Vec<Limb>) -> (r: Self)
        ensures
            r.wf(),
            r@ == limbs_value(limbs@),
    {
        let mut r = Self { limbs };
        r.normalize();
        r
    }

    /// The limbs, least significant first.
    pub fn to_limbs(&self) -> (v: Vec<Limb>)
        ensures
            limbs_value(v@) == self@,
            self.wf() ==> is_normalized(v@),
            v@.len() == self.limb_count(),
    {
        let mut v: Vec<Limb> = Vec::new();
        let mut i: usize = 0;
        while i < self.limbs.len()
            invariant
                i <= self.limbs.len(),
                v@ == self.limbs@.take(i as int),
            decreases self.limbs.len() - i,
        {
            v.push(self.limbs[i]);
            i += 1;
            proof {
                assert(v@ =~= self.limbs@.take(i as int));
            }
        }
        proof {
            assert(v@ =~= self.limbs@);
        }
        v
    }

    /// `self >= rhs`.
    pub fn ge(&self, rhs: &Self) -> (b: bool)
        requires
            self.wf(),
            rhs.wf(),
        ensures
            b == (self@ >= rhs@),
    {
        match self.cmp(rhs) {
            Ordering::Less => false,
            _ => true,
        }
    }
}

impl Integer {
    /// The limb count of a well-formed integer is that of its value.
    pub proof fn lemma_limb_count_is_limb_len(&self)
        requires
            self.wf(),
        ensures
            self.limb_count() == crate::limbs::limb_len(self@),
    {
        crate::limbs::lemma_normalized_len(self.limbs@);
    }
}


impl core::ops::Add<&Integer> for Integer {
    type Output = Integer;

    fn add(self, rhs: &Integer) -> (r: Integer)
        ensures
            r.wf(),
            r@ == self@ + rhs@,
    {
        self.add_ref(rhs)
    }
}

impl vstd::std_specs::ops::AddSpecImpl<&Integer> for Integer {
    open spec fn obeys_add_spec() -> bool {
        false
    }

    open spec fn add_req(self, rhs: &Integer) -> bool {
        self.wf() && rhs.wf()
    }

    open spec fn add_spec(self, rhs: &Integer) -> Integer {
        arbitrary()
    }
}

impl core::ops::Sub<&Integer> for &Integer {
    type Output = Integer;

    fn sub(self, rhs: &Integer) -> (r: Integer)
        ensures
            r.wf(),
            r@ == self@ - rhs@,
    {
        self.sub_ref(rhs)
    }
}

impl vstd::std_specs::ops::SubSpecImpl<&Integer> for &Integer {
    open spec fn obeys_sub_spec() -> bool {
        false
    }

    open spec fn sub_req(self, rhs: &Integer) -> bool {
        self.wf() && rhs.wf() && rhs@ <= self@
    }

    open spec fn sub_spec(self, rhs: &Integer) -> Integer {
        arbitrary()
    }
}

impl core::ops::Sub<&Integer> for Integer {
    type Output = Integer;

    fn sub(self, rhs: &Integer) -> (r: Integer)
        ensures
            r.wf(),
            r@ == self@ - rhs@,
    {
        self.sub_ref(rhs)
    }
}

impl vstd::std_specs::ops::SubSpecImpl<&Integer> for Integer {
    open spec fn obeys_sub_spec() -> bool {
        false
    }

    open spec fn sub_req(self, rhs: &Integer) -> bool {
        self.wf() && rhs.wf() && rhs@ <= self@
    }

    open spec fn sub_spec(self, rhs: &Integer) -> Integer {
        arbitrary()
    }
}

impl core::ops::Sub<Integer> for &Integer {
    type Output = Integer;

    fn sub(self, rhs: Integer) -> (r: Integer)
        ensures
            r.wf(),
            r@ == self@ - rhs@,
    {
        self.sub_ref(&rhs)
    }
}

impl vstd::std_specs::ops::SubSpecImpl<Integer> for &Integer {
    open spec fn obeys_sub_spec() -> bool {
        false
    }

    open spec fn sub_req(self, rhs: Integer) -> bool {
        self.wf() && rhs.wf() && rhs@ <= self@
    }

    open spec fn sub_spec(self, rhs: Integer) -> Integer {
        arbitrary()
    }
}

impl core::ops::Sub<Integer> for Integer {
    type Output = Integer;

    fn sub(self, rhs: Integer) -> (r: Integer)
        ensures
            r.wf(),
            r@ == self@ - rhs@,
    {
        self.sub_ref(&rhs)
    }
}

impl vstd::std_specs::ops::SubSpecImpl<Integer> for Integer {
    open spec fn obeys_sub_spec() -> bool {
        false
    }

    open spec fn sub_req(self, rhs: Integer) -> bool {
        self.wf() && rhs.wf() && rhs@ <= self@
    }

    open spec fn sub_spec(self, rhs: Integer) -> Integer {
        arbitrary()
    }
}

impl core::ops::Mul<&Integer> for &Integer {
    type Output = Integer;

    fn mul(self, rhs: &Integer) -> (r: Integer)
        ensures
            r.wf(),
            r@ == self@ * rhs@,
    {
        self.mul_ref(rhs)
    }
}

impl vstd::std_specs::ops::MulSpecImpl<&Integer> for &Integer {
    open spec fn obeys_mul_spec() -> bool {
        false
    }

    open spec fn mul_req(self, rhs: &Integer) -> bool {
        self.wf() && rhs.wf() && self.limb_count() + rhs.limb_count() <= usize::MAX
    }

    open spec fn mul_spec(self, rhs: &Integer) -> Integer {
        arbitrary()
    }
}

impl core::ops::Mul<&Integer> for Integer {
    type Output = Integer;

    fn mul(self, rhs: &Integer) -> (r: Integer)
        ensures
            r.wf(),
            r@ == self@ * rhs@,
    {
        self.mul_ref(rhs)
    }
}

impl vstd::std_specs::ops::MulSpecImpl<&Integer> for Integer {
    open spec fn obeys_mul_spec() -> bool {
        false
    }

    open spec fn mul_req(self, rhs: &Integer) -> bool {
        self.wf() && rhs.wf() && self.limb_count() + rhs.limb_count() <= usize::MAX
    }

    open spec fn mul_spec(self, rhs: &Integer) -> Integer {
        arbitrary()
    }
}

impl core::ops::Mul<Integer> for &Integer {
    type Output = Integer;

    fn mul(self, rhs: Integer) -> (r: Integer)
        ensures
            r.wf(),
            r@ == self@ * rhs@,
    {
        self.mul_ref(&rhs)
    }
}

impl vstd::std_specs::ops::MulSpecImpl<Integer> for &Integer {
    open spec fn obeys_mul_spec() -> bool {
        false
    }

    open spec fn mul_req(self, rhs: Integer) -> bool {
        self.wf() && rhs.wf() && self.limb_count() + rhs.limb_count() <= usize::MAX
    }

    open spec fn mul_spec(self, rhs: Integer) -> Integer {
        arbitrary()
    }
}

impl core::ops::Mul<Integer> for Integer {
    type Output = Integer;

    fn mul(self, rhs: Integer) -> (r: Integer)
        ensures
            r.wf(),
            r@ == self@ * rhs@,
    {
        self.mul_ref(&rhs)
    }
}

impl vstd::std_specs::ops::MulSpecImpl<Integer> for Integer {
    open spec fn obeys_mul_spec() -> bool {
        false
    }

    open spec fn mul_req(self, rhs: Integer) -> bool {
        self.wf() && rhs.wf() && self.limb_count() + rhs.limb_count() <= usize::MAX
    }

    open spec fn mul_spec(self, rhs: Integer) -> Integer {
        arbitrary()
    }
}

impl core::ops::Shl<usize> for &Integer {
    type Output = Integer;

    fn shl(self, rhs: usize) -> (r: Integer)
        ensures
            r.wf(),
            r@ == self@ * pow2(rhs as nat),
    {
        self.shl_ref(rhs)
    }
}

impl vstd::std_specs::ops::ShlSpecImpl<usize> for &Integer {
    open spec fn obeys_shl_spec() -> bool {
        false
    }

    open spec fn shl_req(self, rhs: usize) -> bool {
        self.wf() && self.limb_count() + rhs / 64 < usize::MAX
    }

    open spec fn shl_spec(self, rhs: usize) -> Integer {
        arbitrary()
    }
}

impl core::ops::Shr<usize> for &Integer {
    type Output = Integer;

    fn shr(self, rhs: usize) -> (r: Integer)
        ensures
            r.wf(),
            r@ == self@ / pow2(rhs as nat),
    {
        self.shr_ref(rhs)
    }
}

impl vstd::std_specs::ops::ShrSpecImpl<usize> for &Integer {
    open spec fn obeys_shr_spec() -> bool {
        false
    }

    open spec fn shr_req(self, rhs: usize) -> bool {
        self.wf()
    }

    open spec fn shr_spec(self, rhs: usize) -> Integer {
        arbitrary()
    }
}

impl core::ops::Shl<usize> for Integer {
    type Output = Integer;

    fn shl(self, rhs: usize) -> (r: Integer)
        ensures
            r.wf(),
            r@ == self@ * pow2(rhs as nat),
    {
        self.shl_ref(rhs)
    }
}

impl vstd::std_specs::ops::ShlSpecImpl<usize> for Integer {
    open spec fn obeys_shl_spec() -> bool {
        false
    }

    open spec fn shl_req(self, rhs: usize) -> bool {
        self.wf() && self.limb_count() + rhs / 64 < usize::MAX
    }

    open spec fn shl_spec(self, rhs: usize) -> Integer {
        arbitrary()
    }
}

impl core::ops::Shr<usize> for Integer {
    type Output = Integer;

    fn shr(self, rhs: usize) -> (r: Integer)
        ensures
            r.wf(),
            r@ == self@ / pow2(rhs as nat),
    {
        self.shr_ref(rhs)
    }
}

impl vstd::std_specs::ops::ShrSpecImpl<usize> for Integer {
    open spec fn obeys_shr_spec() -> bool {
        false
    }

    open spec fn shr_req(self, rhs: usize) -> bool {
        self.wf()
    }

    open spec fn shr_spec(self, rhs: usize) -> Integer {
        arbitrary()
    }
}
} // verus!
